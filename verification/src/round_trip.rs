//! The round trip: what was encoded decodes to what it was.
use vstd::prelude::*;
use crate::descriptor::{Descriptors, FieldDescriptor, FieldType, MessageDescriptor};
use crate::error::Fault;
use crate::laws::{held, lemma_found, lemma_merged_entry};
use crate::model::{
    entries, fields_wire, fresh, fresh_fields, initial, lemma_field_framed, lemma_lookup_is_field,
    merged, merged_field, merged_scalar, nested_base, scalar_at, FieldView, MessageView, ValueView,
};
use crate::wire::{
    lemma_bool_round_trip, lemma_delimited_round_trip, lemma_int32_round_trip,
    lemma_int64_round_trip, lemma_le32_round_trip, lemma_le64_round_trip, lemma_string_round_trip,
    lemma_uint32_round_trip, lemma_uint64_round_trip, valid_number, FIELD_NUMBER_MAX, WireType,
};

verus! {

/// Whether `v` is a scalar, bytes, a text or an enum code that a field of
/// the declared type `t` holds and that is written as `t` is read.
///
/// The zigzag and the fixed-width integer types are not among them: their
/// values are held as plain integers and written as varints.
pub open spec fn reads_back(t: FieldType, v: ValueView) -> bool {
    match (t, v) {
        (FieldType::Bool, ValueView::Bool(_)) => true,
        (FieldType::Int32, ValueView::I32(_)) => true,
        (FieldType::Int64, ValueView::I64(_)) => true,
        (FieldType::UInt32, ValueView::U32(_)) => true,
        (FieldType::UInt64, ValueView::U64(_)) => true,
        (FieldType::Float, ValueView::F32(_)) => true,
        (FieldType::Double, ValueView::F64(_)) => true,
        (FieldType::Bytes, ValueView::Bytes(_)) => true,
        (FieldType::String, ValueView::String(_)) => true,
        (FieldType::Enum, ValueView::Enum(_)) => true,
        _ => false,
    }
}

/// Whether `v` is a value of the declared type `t`: a scalar that is
/// written as `t` is read, or a message that conforms to the message type
/// that `t` names.
pub open spec fn typed(v: ValueView, t: FieldType, descriptors: Descriptors) -> bool
    decreases v, 0nat,
{
    match v {
        ValueView::Message(m) => match t {
            FieldType::Message(index) => index < descriptors.messages@.len() && conforms(
                m,
                descriptors,
                descriptors.messages@[index as int],
            ),
            _ => false,
        },
        _ => reads_back(t, v),
    }
}

/// Whether a field is as the schema declares it: single or repeated, and
/// every value of the declared type.
pub open spec fn field_typed(
    f: FieldView,
    field: FieldDescriptor,
    descriptors: Descriptors,
) -> bool
    decreases f, 1nat,
{
    match f {
        FieldView::Singular(None) => !field.repeated,
        FieldView::Singular(Some(v)) => !field.repeated && typed(
            v,
            field.field_type,
            descriptors,
        ),
        FieldView::Repeated(values) => field.repeated && forall|i: int|
            0 <= i < values.len() ==> typed(#[trigger] values[i], field.field_type, descriptors),
    }
}

/// Whether a message is one of the type `message`: it has the fields of the
/// schema and no others, each as the schema declares it, and no unknown
/// bytes.
pub open spec fn conforms(
    m: MessageView,
    descriptors: Descriptors,
    message: MessageDescriptor,
) -> bool
    decreases m, 2nat,
{
    &&& m.unknown.len() == 0
    &&& m.fields.dom().finite()
    &&& forall|number: i32| #[trigger]
        m.fields.contains_key(number) <==> message.field(number) is Some
    &&& forall|number: i32|
        m.fields.dom().finite() && #[trigger] m.fields.contains_key(number) ==> field_typed(
            m.fields[number],
            message.field(number)->0,
            descriptors,
        )
}

/// A value as it comes back from a round trip.
pub open spec fn normal_value(v: ValueView, t: FieldType, descriptors: Descriptors) -> ValueView
    decreases v, 0nat,
{
    match v {
        ValueView::Message(m) => match t {
            FieldType::Message(index) => if index < descriptors.messages@.len() {
                ValueView::Message(normal(m, descriptors, descriptors.messages@[index as int]))
            } else {
                v
            },
            _ => v,
        },
        _ => v,
    }
}

/// A field as it comes back from a round trip. A single value that is
/// absent or a default is not written, so the field comes back as a new
/// message has it.
pub open spec fn normal_field(
    f: FieldView,
    field: FieldDescriptor,
    descriptors: Descriptors,
) -> FieldView
    decreases f, 1nat,
{
    match f {
        FieldView::Singular(None) => initial(field),
        FieldView::Singular(Some(v)) => if v.is_default() {
            initial(field)
        } else {
            FieldView::Singular(Some(normal_value(v, field.field_type, descriptors)))
        },
        FieldView::Repeated(values) => FieldView::Repeated(
            Seq::new(
                values.len(),
                |i: int|
                    if 0 <= i < values.len() {
                        normal_value(values[i], field.field_type, descriptors)
                    } else {
                        ValueView::Bool(false)
                    },
            ),
        ),
    }
}

/// A message as it comes back from a round trip: every field as it comes
/// back.
pub open spec fn normal(
    m: MessageView,
    descriptors: Descriptors,
    message: MessageDescriptor,
) -> MessageView
    decreases m, 2nat,
{
    MessageView {
        fields: Map::new(
            |number: i32| m.fields.contains_key(number),
            |number: i32|
                if m.fields.dom().finite() && m.fields.contains_key(number) {
                    normal_field(m.fields[number], message.field(number)->0, descriptors)
                } else {
                    FieldView::Singular(None)
                },
        ),
        unknown: Seq::empty(),
    }
}

/// A scalar that is written as its type is read reads back as it was.
pub proof fn lemma_scalar_round_trip(t: FieldType, v: ValueView, rest: Seq<u8>)
    requires
        reads_back(t, v),
        v.framed(),
    ensures
        scalar_at(t, v.body() + rest) == Some((v, v.body().len())),
        v.wire_type() == t.wire_type(),
        t.scalar(),
        v.wire_type() == WireType::LengthDelimited ==> !t.packable(),
{
    match v {
        ValueView::Bool(b) => {
            lemma_bool_round_trip(b, rest);
        },
        ValueView::I32(x) => {
            lemma_int32_round_trip(x, rest);
        },
        ValueView::I64(x) => {
            lemma_int64_round_trip(x, rest);
        },
        ValueView::U32(x) => {
            lemma_uint32_round_trip(x, rest);
        },
        ValueView::U64(x) => {
            lemma_uint64_round_trip(x, rest);
        },
        ValueView::Enum(x) => {
            lemma_int32_round_trip(x, rest);
        },
        ValueView::F32(bits) => {
            lemma_le32_round_trip(bits, rest);
        },
        ValueView::F64(bits) => {
            lemma_le64_round_trip(bits, rest);
        },
        ValueView::Bytes(b) => {
            lemma_delimited_round_trip(b, rest);
        },
        ValueView::String(s) => {
            lemma_string_round_trip(s, rest);
        },
        ValueView::Message(_) => {},
    }
}


/// The fields that the first `upto` descriptors give a new message are the
/// initial fields of those descriptors.
proof fn lemma_fresh_fields_at(fields: Seq<FieldDescriptor>, upto: nat)
    requires
        upto <= fields.len(),
        forall|i: int, j: int|
            0 <= i < j < fields.len() ==> (#[trigger] fields[i]).number != (
            #[trigger] fields[j]).number,
    ensures
        fresh_fields(fields, upto).dom().finite(),
        forall|number: i32| #[trigger]
            fresh_fields(fields, upto).contains_key(number) <==> exists|i: int|
                0 <= i < upto && (#[trigger] fields[i]).number == number,
        forall|i: int|
            0 <= i < upto ==> fresh_fields(fields, upto)[(#[trigger] fields[i]).number] == initial(
                fields[i],
            ),
    decreases upto,
{
    if upto > 0 {
        lemma_fresh_fields_at(fields, (upto - 1) as nat);
        let last = fields[upto - 1];
        assert forall|number: i32| #[trigger]
            fresh_fields(fields, upto).contains_key(number) implies exists|i: int|
            0 <= i < upto && (#[trigger] fields[i]).number == number by {
            if number == last.number {
                assert(fields[upto - 1].number == number);
            } else {
                assert(fresh_fields(fields, (upto - 1) as nat).contains_key(number));
                let i = choose|i: int| 0 <= i < upto - 1 && (#[trigger] fields[i]).number == number;
                assert(fields[i].number == number);
            }
        }
    }
}

/// A new message has the fields of its type, each as the schema starts it.
pub proof fn lemma_fresh_is_initial(message: MessageDescriptor)
    requires
        message.distinct(),
    ensures
        fresh(message).fields.dom().finite(),
        forall|number: i32| #[trigger]
            fresh(message).fields.contains_key(number) <==> message.field(number) is Some,
        forall|number: i32|
            message.field(number) is Some ==> #[trigger] fresh(message).fields[number] == initial(
                message.field(number)->0,
            ),
{
    let fields = message.fields@;
    lemma_fresh_fields_at(fields, fields.len());
    assert forall|number: i32| #[trigger]
        fresh(message).fields.contains_key(number) <==> message.field(number) is Some by {
        lemma_lookup_is_field(fields, number);
        if message.field(number) is Some {
            let i = choose|i: int| 0 <= i < fields.len() && fields[i] == message.field(number)->0;
            assert(fields[i].number == number);
        }
    }
    assert forall|number: i32| message.field(number) is Some implies #[trigger] fresh(
        message,
    ).fields[number] == initial(message.field(number)->0) by {
        lemma_lookup_is_field(fields, number);
        let i = choose|i: int| 0 <= i < fields.len() && fields[i] == message.field(number)->0;
        assert(fields[i].number == number);
    }
}

/// The first `count` values of a sequence as they come back from a round
/// trip.
pub open spec fn normals(
    values: Seq<ValueView>,
    t: FieldType,
    descriptors: Descriptors,
    count: nat,
) -> Seq<ValueView> {
    Seq::new(count, |i: int| normal_value(values[i], t, descriptors))
}

/// A message that is being decoded from the encoding of `m`, when the
/// fields below `bound` have been read: those are as they come back, the
/// others as a new message has them.
pub open spec fn partial(
    m: MessageView,
    descriptors: Descriptors,
    message: MessageDescriptor,
    bound: nat,
) -> MessageView {
    MessageView {
        fields: Map::new(
            |number: i32| m.fields.contains_key(number),
            |number: i32|
                if number < bound {
                    normal(m, descriptors, message).fields[number]
                } else {
                    initial(message.field(number)->0)
                },
        ),
        unknown: Seq::empty(),
    }
}

/// The entry of a value decodes to the value as it comes back, put into
/// the field of its number.
proof fn lemma_value_round_trip(
    state: MessageView,
    descriptors: Descriptors,
    message: MessageDescriptor,
    number: u32,
    v: ValueView,
    rest: Seq<u8>,
)
    requires
        descriptors.wf(),
        descriptors.distinct(),
        valid_number(number as int),
        message.field(number as i32) is Some,
        typed(v, message.field(number as i32)->0.field_type, descriptors),
        v.framed(),
        !(held(state, message, number) matches FieldView::Singular(Some(ValueView::Message(_)))),
    ensures
        merged(state, descriptors, message, v.entry(number) + rest) == merged(
            state.with_field(
                number as i32,
                held(state, message, number).put(
                    normal_value(v, message.field(number as i32)->0.field_type, descriptors),
                ),
            ),
            descriptors,
            message,
            rest,
        ),
    decreases v, 0nat,
{
    let t = message.field(number as i32)->0.field_type;
    let field = held(state, message, number);
    let f = field.put(normal_value(v, t, descriptors));
    match v {
        ValueView::Message(sub) => {
            let index = t->Message_0;
            let nested = descriptors.messages@[index as int];
            round_trip(sub, descriptors, index);
            crate::wire::lemma_run_round_trip(sub.wire(), rest);
            assert(nested_base(field, nested) == fresh(nested));
            assert(merged_field(field, descriptors, t, WireType::LengthDelimited, v.body() + rest)
                == Ok::<(FieldView, nat), Fault>((f, v.body().len())));
        },
        _ => {
            lemma_scalar_round_trip(t, v, rest);
            assert(merged_scalar(field, t, v.wire_type(), v.body() + rest) == Ok::<
                (FieldView, nat),
                Fault,
            >((f, v.body().len())));
        },
    }
    lemma_merged_entry(state, descriptors, message, number, v.wire_type(), v.body(), rest, f);
}

/// The entries of the values of a repeated field decode to the values as
/// they come back, in their order.
proof fn lemma_entries_round_trip(
    state: MessageView,
    descriptors: Descriptors,
    message: MessageDescriptor,
    number: u32,
    values: Seq<ValueView>,
    count: nat,
    rest: Seq<u8>,
)
    requires
        descriptors.wf(),
        descriptors.distinct(),
        valid_number(number as int),
        message.field(number as i32) is Some,
        count <= values.len(),
        forall|i: int|
            0 <= i < values.len() ==> typed(
                #[trigger] values[i],
                message.field(number as i32)->0.field_type,
                descriptors,
            ) && values[i].framed(),
        state.fields.contains_key(number as i32),
        state.fields[number as i32] == FieldView::Repeated(Seq::empty()),
    ensures
        merged(state, descriptors, message, entries(values, number, count) + rest) == merged(
            state.with_field(
                number as i32,
                FieldView::Repeated(
                    normals(
                        values,
                        message.field(number as i32)->0.field_type,
                        descriptors,
                        count,
                    ),
                ),
            ),
            descriptors,
            message,
            rest,
        ),
    decreases values, count,
{
    let t = message.field(number as i32)->0.field_type;
    lemma_found(message, number as i32);
    if count == 0 {
        assert(entries(values, number, count) + rest =~= rest);
        assert(normals(values, t, descriptors, 0) =~= Seq::empty());
        assert(state.with_field(number as i32, state.fields[number as i32]).fields
            =~= state.fields);
    } else {
        let before = (count - 1) as nat;
        let v = values[count - 1];
        let entry = v.entry(number);
        lemma_entries_round_trip(state, descriptors, message, number, values, before, entry + rest);
        assert(entries(values, number, count) + rest =~= entries(values, number, before) + (entry
            + rest));
        let so_far = FieldView::Repeated(normals(values, t, descriptors, before));
        let next = state.with_field(number as i32, so_far);
        assert(held(next, message, number) == so_far);
        lemma_value_round_trip(next, descriptors, message, number, v, rest);
        assert(normals(values, t, descriptors, before).push(normal_value(v, t, descriptors))
            =~= normals(values, t, descriptors, count));
        assert(next.with_field(
            number as i32,
            so_far.put(normal_value(v, t, descriptors)),
        ).fields =~= state.with_field(
            number as i32,
            FieldView::Repeated(normals(values, t, descriptors, count)),
        ).fields);
    }
}

/// What a field writes decodes to the field as it comes back.
proof fn lemma_field_round_trip(
    state: MessageView,
    descriptors: Descriptors,
    message: MessageDescriptor,
    number: u32,
    f: FieldView,
    rest: Seq<u8>,
)
    requires
        descriptors.wf(),
        descriptors.distinct(),
        valid_number(number as int),
        message.field(number as i32) is Some,
        !(message.field(number as i32)->0.default_value matches Some(
            crate::value::Value::Message(_),
        )),
        field_typed(f, message.field(number as i32)->0, descriptors),
        f.framed(),
        state.fields.contains_key(number as i32),
        state.fields[number as i32] == initial(message.field(number as i32)->0),
    ensures
        merged(state, descriptors, message, f.wire(number) + rest) == merged(
            state.with_field(
                number as i32,
                normal_field(f, message.field(number as i32)->0, descriptors),
            ),
            descriptors,
            message,
            rest,
        ),
    decreases f, 1nat,
{
    let field = message.field(number as i32)->0;
    lemma_found(message, number as i32);
    let unchanged = state.with_field(number as i32, initial(field));
    assert(unchanged.fields =~= state.fields);
    match f {
        FieldView::Singular(None) => {
            assert(f.wire(number) + rest =~= rest);
        },
        FieldView::Singular(Some(v)) => {
            if v.is_default() {
                assert(f.wire(number) + rest =~= rest);
            } else {
                lemma_value_round_trip(state, descriptors, message, number, v, rest);
            }
        },
        FieldView::Repeated(values) => {
            lemma_entries_round_trip(
                state,
                descriptors,
                message,
                number,
                values,
                values.len(),
                rest,
            );
            assert(normals(values, field.field_type, descriptors, values.len())
                =~= normal_field(f, field, descriptors)->Repeated_0);
        },
    }
}

/// The fields below a bound, as a message writes them, decode to the
/// fields as they come back.
proof fn lemma_fields_round_trip(
    m: MessageView,
    descriptors: Descriptors,
    index: usize,
    bound: nat,
    rest: Seq<u8>,
)
    requires
        descriptors.wf(),
        descriptors.distinct(),
        index < descriptors.messages@.len(),
        conforms(m, descriptors, descriptors.messages@[index as int]),
        m.wire().len() <= u32::MAX,
        bound <= FIELD_NUMBER_MAX + 1,
    ensures
        merged(
            fresh(descriptors.messages@[index as int]),
            descriptors,
            descriptors.messages@[index as int],
            fields_wire(m.fields, bound) + rest,
        ) == merged(
            partial(m, descriptors, descriptors.messages@[index as int], bound),
            descriptors,
            descriptors.messages@[index as int],
            rest,
        ),
    decreases m, bound,
{
    let message = descriptors.messages@[index as int];
    assert(message.wf(descriptors.messages@.len()));
    assert(message.distinct());
    lemma_fresh_is_initial(message);
    if bound == 0 {
        assert(fields_wire(m.fields, bound) + rest =~= rest);
        let start = partial(m, descriptors, message, 0).fields;
        assert forall|number: i32| start.contains_key(number) == fresh(message).fields.contains_key(
            number,
        ) by {
            assert(m.fields.contains_key(number) <==> message.field(number) is Some);
        }
        assert forall|number: i32| start.contains_key(number) implies start[number] == fresh(
            message,
        ).fields[number] by {
            assert(m.fields.contains_key(number) <==> message.field(number) is Some);
            lemma_lookup_is_field(message.fields@, number);
        }
        assert(start =~= fresh(message).fields);
    } else {
        let before = (bound - 1) as nat;
        let number = before as i32;
        let state = partial(m, descriptors, message, before);
        if m.fields.contains_key(number) {
            let f = m.fields[number];
            let field = message.field(number)->0;
            lemma_found(message, number);
            lemma_lookup_is_field(message.fields@, number);
            assert(field.wf(descriptors.messages@.len()));
            let written = f.wire(number as u32);
            lemma_fields_round_trip(m, descriptors, index, before, written + rest);
            assert(fields_wire(m.fields, bound) + rest =~= fields_wire(m.fields, before) + (written
                + rest));
            crate::model::lemma_fields_wire_step(m.fields, number);
            crate::model::lemma_fields_wire_grow(
                m.fields,
                bound,
                (FIELD_NUMBER_MAX + 1) as nat,
            );
            lemma_field_framed(f, number as u32);
            lemma_field_round_trip(state, descriptors, message, number as u32, f, rest);
            assert(state.with_field(number, normal_field(f, field, descriptors)).fields
                =~= partial(m, descriptors, message, bound).fields);
        } else {
            lemma_fields_round_trip(m, descriptors, index, before, rest);
            assert(fields_wire(m.fields, bound) + rest =~= fields_wire(m.fields, before) + rest);
            assert(state.fields =~= partial(m, descriptors, message, bound).fields);
        }
    }
}

/// The round trip. Take a schema whose message types are well formed and
/// have no field number twice, and a message that conforms to one of them
/// and whose encoding fits in 32 bits. Decoding the encoding of the message
/// into a new message of that type gives the message back, field for field,
/// but for single values that were absent or defaults: those were not
/// written, and come back as a new message has them.
pub proof fn round_trip(m: MessageView, descriptors: Descriptors, index: usize)
    requires
        descriptors.wf(),
        descriptors.distinct(),
        index < descriptors.messages@.len(),
        conforms(m, descriptors, descriptors.messages@[index as int]),
        m.wire().len() <= u32::MAX,
    ensures
        merged(
            fresh(descriptors.messages@[index as int]),
            descriptors,
            descriptors.messages@[index as int],
            m.wire(),
        ) == Ok::<MessageView, Fault>(normal(m, descriptors, descriptors.messages@[index as int])),
    decreases m, FIELD_NUMBER_MAX + 2,
{
    let message = descriptors.messages@[index as int];
    let bound = (FIELD_NUMBER_MAX + 1) as nat;
    let empty = Seq::<u8>::empty();
    lemma_fields_round_trip(m, descriptors, index, bound, empty);
    assert(m.wire() =~= fields_wire(m.fields, bound) + empty);
    assert(message.wf(descriptors.messages@.len()));
    assert forall|number: i32| #[trigger] m.fields.contains_key(number) implies number < bound by {
        lemma_lookup_is_field(message.fields@, number);
    }
    assert(partial(m, descriptors, message, bound).fields =~= normal(
        m,
        descriptors,
        message,
    ).fields);
}

} // verus!
