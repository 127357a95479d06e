//! Laws that relate encoding and decoding, proved from the model.
use vstd::prelude::*;
use crate::descriptor::{Descriptors, FieldType, MessageDescriptor};
use crate::model::{
    fields_wire, initial, lemma_group_bounds, lemma_merged_field_taken, lemma_scalar_bounds,
    lemma_tag_len, merged, merged_field, merged_scalar, packed, scalar_at, taken, FieldView,
    MessageView, ValueView,
};
use crate::wire::{
    delimited_bytes, lemma_run_round_trip, lemma_tag_round_trip, lemma_varint_at_bounds,
    lemma_varint_at_prefix, skip_extent, tag_at, tag_bytes, valid_number, FIELD_NUMBER_MAX,
    WireType,
};

verus! {

/// The bytes of the unknown fields of `s`, in the order in which they come:
/// each field whose number `message` does not know, tag and all, groups
/// left out.
pub open spec fn kept(message: MessageDescriptor, s: Seq<u8>) -> Seq<u8>
    decreases s.len(),
    via kept_decreases
{
    if s.len() == 0 {
        Seq::empty()
    } else {
        match tag_at(s) {
            Some(((number, wire_type), n)) => {
                let rest = s.skip(n as int);
                match message.field(number as i32) {
                    Some(field) => match taken(field.field_type, wire_type, rest) {
                        Some(k) => kept(message, rest.skip(k as int)),
                        None => Seq::empty(),
                    },
                    None => match skip_extent(wire_type, rest) {
                        Some(k) => if wire_type == WireType::StartGroup {
                            kept(message, rest.skip(k as int))
                        } else {
                            s.take((n + k) as int) + kept(message, rest.skip(k as int))
                        },
                        None => Seq::empty(),
                    },
                }
            },
            None => Seq::empty(),
        }
    }
}

#[via_fn]
proof fn kept_decreases(message: MessageDescriptor, s: Seq<u8>) {
    lemma_scalar_bounds(FieldType::Bool, s);
    match tag_at(s) {
        Some((_, n)) => {
            lemma_scalar_bounds(FieldType::Bool, s.skip(n as int));
            lemma_group_bounds(s.skip(n as int));
        },
        None => {},
    }
}

/// Unknown fields are preserved. Where decoding `s` into a message
/// succeeds, the message holds the unknown bytes that it held, then the
/// bytes of each unknown field of `s`, unchanged and in the order in which
/// they came; and its encoding ends with them, after all of its known
/// fields.
pub proof fn unknown_fields_are_preserved(
    m: MessageView,
    descriptors: Descriptors,
    message: MessageDescriptor,
    s: Seq<u8>,
)
    requires
        merged(m, descriptors, message, s) is Ok,
    ensures
        ({
            let decoded = merged(m, descriptors, message, s)->Ok_0;
            &&& decoded.unknown == m.unknown + kept(message, s)
            &&& decoded.wire() == fields_wire(decoded.fields, (FIELD_NUMBER_MAX + 1) as nat)
                + m.unknown + kept(message, s)
        }),
    decreases s.len(),
{
    if s.len() == 0 {
        assert(m.unknown + kept(message, s) =~= m.unknown);
    } else {
        lemma_scalar_bounds(FieldType::Bool, s);
        let ((number, wire_type), n) = tag_at(s)->0;
        let rest = s.skip(n as int);
        lemma_scalar_bounds(FieldType::Bool, rest);
        lemma_group_bounds(rest);
        match message.field(number as i32) {
            Some(field) => {
                let held = if m.fields.contains_key(field.number) {
                    m.fields[field.number]
                } else {
                    initial(field)
                };
                lemma_merged_field_taken(held, descriptors, field.field_type, wire_type, rest);
                let (f, k) = merged_field(
                    held,
                    descriptors,
                    field.field_type,
                    wire_type,
                    rest,
                )->Ok_0;
                unknown_fields_are_preserved(
                    m.with_field(field.number, f),
                    descriptors,
                    message,
                    rest.skip(k as int),
                );
            },
            None => {
                let k = skip_extent(wire_type, rest)->0;
                if wire_type == WireType::StartGroup {
                    unknown_fields_are_preserved(m, descriptors, message, rest.skip(k as int));
                } else {
                    let raw = s.take((n + k) as int);
                    unknown_fields_are_preserved(
                        m.with_unknown(raw),
                        descriptors,
                        message,
                        rest.skip(k as int),
                    );
                    assert(m.unknown + raw + kept(message, rest.skip(k as int)) =~= m.unknown + (
                    raw + kept(message, rest.skip(k as int))));
                }
            },
        }
    }
    let decoded = merged(m, descriptors, message, s)->Ok_0;
    assert(decoded.wire() =~= fields_wire(decoded.fields, (FIELD_NUMBER_MAX + 1) as nat)
        + m.unknown + kept(message, s));
}


/// Whether `chunk` is the encoding of exactly one value of the type `t`.
pub open spec fn one_value(t: FieldType, chunk: Seq<u8>) -> bool {
    match scalar_at(t, chunk) {
        Some((_, n)) => n == chunk.len(),
        None => false,
    }
}

/// The value of the type `t` that `chunk` encodes.
pub open spec fn value_of(t: FieldType, chunk: Seq<u8>) -> ValueView {
    match scalar_at(t, chunk) {
        Some((v, _)) => v,
        None => ValueView::Bool(false),
    }
}

/// The chunks one after another.
pub open spec fn joined(chunks: Seq<Seq<u8>>) -> Seq<u8>
    decreases chunks.len(),
{
    if chunks.len() == 0 {
        Seq::empty()
    } else {
        chunks[0] + joined(chunks.drop_first())
    }
}

/// The chunks one after another, each behind a tag of its own with the
/// field number `number` and the wire type of the type `t`.
pub open spec fn unpacked(number: u32, t: FieldType, chunks: Seq<Seq<u8>>) -> Seq<u8>
    decreases chunks.len(),
{
    if chunks.len() == 0 {
        Seq::empty()
    } else {
        tag_bytes(number, t.wire_type()) + chunks[0] + unpacked(number, t, chunks.drop_first())
    }
}

/// The field after it took in, in their order, the values of type `t` that
/// the chunks encode.
pub open spec fn put_all(field: FieldView, t: FieldType, chunks: Seq<Seq<u8>>) -> FieldView
    decreases chunks.len(),
{
    if chunks.len() == 0 {
        field
    } else {
        put_all(field.put(value_of(t, chunks[0])), t, chunks.drop_first())
    }
}

/// One value of a packable type is read from its own bytes alone.
pub proof fn lemma_scalar_prefix(t: FieldType, chunk: Seq<u8>, rest: Seq<u8>)
    requires
        t.packable(),
        one_value(t, chunk),
    ensures
        scalar_at(t, chunk + rest) == scalar_at(t, chunk),
{
    lemma_varint_at_prefix(chunk, rest);
    lemma_varint_at_bounds(chunk);
    assert(chunk.take(chunk.len() as int) =~= chunk);
    let s = chunk + rest;
    if chunk.len() >= 4 {
        assert(s[0] == chunk[0] && s[1] == chunk[1] && s[2] == chunk[2] && s[3] == chunk[3]);
    }
    if chunk.len() >= 8 {
        assert(s.skip(4)[0] == chunk.skip(4)[0] && s.skip(4)[1] == chunk.skip(4)[1] && s.skip(
            4,
        )[2] == chunk.skip(4)[2] && s.skip(4)[3] == chunk.skip(4)[3]);
    }
}

/// A packed run of chunks puts their values into a field one by one.
pub proof fn lemma_packed_joined(field: FieldView, t: FieldType, chunks: Seq<Seq<u8>>)
    requires
        t.packable(),
        forall|i: int| 0 <= i < chunks.len() ==> one_value(t, #[trigger] chunks[i]),
    ensures
        packed(field, t, joined(chunks)) == Some(put_all(field, t, chunks)),
    decreases chunks.len(),
{
    if chunks.len() > 0 {
        let tail = chunks.drop_first();
        assert(one_value(t, chunks[0]));
        lemma_scalar_bounds(t, chunks[0]);
        lemma_scalar_prefix(t, chunks[0], joined(tail));
        assert forall|i: int| 0 <= i < tail.len() implies one_value(t, #[trigger] tail[i]) by {
            assert(tail[i] == chunks[i + 1]);
        }
        lemma_packed_joined(field.put(value_of(t, chunks[0])), t, tail);
        assert(joined(chunks).skip(chunks[0].len() as int) =~= joined(tail));
    }
}

/// The field that a value of the field `number` is merged into: the one
/// that the message holds, else one as a new message has it.
pub open spec fn held(m: MessageView, message: MessageDescriptor, number: u32) -> FieldView {
    let field = message.field(number as i32)->0;
    if m.fields.contains_key(field.number) {
        m.fields[field.number]
    } else {
        initial(field)
    }
}

/// The step of a decode over one known field. Where the bytes start with a
/// tag of a field that the schema knows, and merging what follows the tag
/// into that field takes `body`, decoding goes on behind `body` with the
/// field as it was merged.
pub proof fn lemma_merged_entry(
    m: MessageView,
    descriptors: Descriptors,
    message: MessageDescriptor,
    number: u32,
    wire_type: WireType,
    body: Seq<u8>,
    rest: Seq<u8>,
    f: FieldView,
)
    requires
        valid_number(number as int),
        message.field(number as i32) is Some,
        merged_field(
            held(m, message, number),
            descriptors,
            message.field(number as i32)->0.field_type,
            wire_type,
            body + rest,
        ) == Ok::<(FieldView, nat), crate::error::Fault>((f, body.len())),
    ensures
        merged(m, descriptors, message, tag_bytes(number, wire_type) + body + rest) == merged(
            m.with_field(number as i32, f),
            descriptors,
            message,
            rest,
        ),
{
    let tail = body + rest;
    let s = tag_bytes(number, wire_type) + tail;
    lemma_tagged(number, wire_type, tail);
    lemma_found(message, number as i32);
    lemma_cut(body, rest);
    assert(tag_bytes(number, wire_type) + body + rest == s) by {
        assert(tag_bytes(number, wire_type) + body + rest =~= s);
    }
    let n = tag_bytes(number, wire_type).len();
    assert(s.len() != 0);
    assert(tag_at(s) == Some(((number, wire_type), n)));
    assert(s.skip(n as int) == tail);
    assert(tail.skip(body.len() as int) == rest);
}

/// Bytes that start with a tag are not empty, read as the tag, and go on
/// with what follows the tag.
pub proof fn lemma_tagged(number: u32, wire_type: WireType, tail: Seq<u8>)
    requires
        valid_number(number as int),
    ensures
        (tag_bytes(number, wire_type) + tail).len() > 0,
        tag_at(tag_bytes(number, wire_type) + tail) == Some(
            ((number, wire_type), tag_bytes(number, wire_type).len()),
        ),
        (tag_bytes(number, wire_type) + tail).skip(tag_bytes(number, wire_type).len() as int)
            == tail,
{
    lemma_tag_len(number, wire_type);
    lemma_tag_round_trip(number, wire_type, tail);
    assert((tag_bytes(number, wire_type) + tail).skip(tag_bytes(number, wire_type).len() as int)
        =~= tail);
}

/// The field that is found for a number has that number.
pub proof fn lemma_found(message: MessageDescriptor, number: i32)
    ensures
        message.field(number) is Some ==> message.field(number)->0.number == number,
{
    crate::model::lemma_lookup_is_field(message.fields@, number);
}

/// What follows the first of two runs of bytes is the second.
pub proof fn lemma_cut(a: Seq<u8>, b: Seq<u8>)
    ensures
        (a + b).skip(a.len() as int) == b,
        (a + b).len() == a.len() + b.len(),
{
    assert((a + b).skip(a.len() as int) =~= b);
}

/// Chunks that come each behind a tag of its own put their values into the
/// field of that number one by one, and decoding goes on behind them.
pub proof fn lemma_unpacked_merged(
    m: MessageView,
    descriptors: Descriptors,
    message: MessageDescriptor,
    number: u32,
    chunks: Seq<Seq<u8>>,
    rest: Seq<u8>,
)
    requires
        valid_number(number as int),
        message.field(number as i32) is Some,
        message.field(number as i32)->0.field_type.packable(),
        m.fields.contains_key(number as i32),
        forall|i: int|
            0 <= i < chunks.len() ==> one_value(
                message.field(number as i32)->0.field_type,
                #[trigger] chunks[i],
            ),
    ensures
        ({
            let t = message.field(number as i32)->0.field_type;
            merged(m, descriptors, message, unpacked(number, t, chunks) + rest) == merged(
                m.with_field(number as i32, put_all(m.fields[number as i32], t, chunks)),
                descriptors,
                message,
                rest,
            )
        }),
    decreases chunks.len(),
{
    let field = message.field(number as i32)->0;
    let t = field.field_type;
    crate::model::lemma_lookup_is_field(message.fields@, number as i32);
    if chunks.len() == 0 {
        assert(unpacked(number, t, chunks) + rest =~= rest);
        assert(m.with_field(number as i32, m.fields[number as i32]).fields =~= m.fields);
    } else {
        let tail = chunks.drop_first();
        let after = unpacked(number, t, tail) + rest;
        assert(one_value(t, chunks[0]));
        lemma_scalar_bounds(t, chunks[0]);
        lemma_scalar_prefix(t, chunks[0], after);
        let v = value_of(t, chunks[0]);
        let f = m.fields[number as i32].put(v);
        assert(merged_scalar(m.fields[number as i32], t, t.wire_type(), chunks[0] + after) == Ok::<
            (FieldView, nat),
            crate::error::Fault,
        >((f, chunks[0].len())));
        lemma_merged_entry(m, descriptors, message, number, t.wire_type(), chunks[0], after, f);
        assert(unpacked(number, t, chunks) + rest =~= tag_bytes(number, t.wire_type()) + chunks[0]
            + after);
        let next = m.with_field(number as i32, f);
        assert forall|i: int| 0 <= i < tail.len() implies one_value(t, #[trigger] tail[i]) by {
            assert(tail[i] == chunks[i + 1]);
        }
        lemma_unpacked_merged(next, descriptors, message, number, tail, rest);
        assert(next.with_field(number as i32, put_all(next.fields[number as i32], t, tail)).fields
            =~= m.with_field(number as i32, put_all(m.fields[number as i32], t, chunks)).fields);
    }
}

/// Packed and unpacked encodings decode alike. Take values of a packable
/// type, each encoded as one chunk of bytes, and a message that has the
/// field. One length-delimited entry that holds the chunks back to back,
/// and the chunks each behind a tag of its own, decode to the same message:
/// the field has taken in the values in their order.
pub proof fn packed_and_unpacked_decode_alike(
    m: MessageView,
    descriptors: Descriptors,
    message: MessageDescriptor,
    number: u32,
    chunks: Seq<Seq<u8>>,
)
    requires
        valid_number(number as int),
        message.field(number as i32) is Some,
        message.field(number as i32)->0.field_type.packable(),
        m.fields.contains_key(number as i32),
        joined(chunks).len() <= u64::MAX,
        forall|i: int|
            0 <= i < chunks.len() ==> one_value(
                message.field(number as i32)->0.field_type,
                #[trigger] chunks[i],
            ),
    ensures
        ({
            let t = message.field(number as i32)->0.field_type;
            let decoded = m.with_field(
                number as i32,
                put_all(m.fields[number as i32], t, chunks),
            );
            &&& merged(
                m,
                descriptors,
                message,
                tag_bytes(number, WireType::LengthDelimited) + delimited_bytes(joined(chunks)),
            ) == Ok::<MessageView, crate::error::Fault>(decoded)
            &&& merged(m, descriptors, message, unpacked(number, t, chunks)) == Ok::<
                MessageView,
                crate::error::Fault,
            >(decoded)
        }),
{
    let field = message.field(number as i32)->0;
    let t = field.field_type;
    crate::model::lemma_lookup_is_field(message.fields@, number as i32);
    let f = put_all(m.fields[number as i32], t, chunks);
    let empty = Seq::<u8>::empty();
    lemma_unpacked_merged(m, descriptors, message, number, chunks, empty);
    assert(unpacked(number, t, chunks) + empty =~= unpacked(number, t, chunks));

    let payload = joined(chunks);
    let body = delimited_bytes(payload);
    lemma_run_round_trip(payload, empty);
    assert(body + empty =~= body);
    lemma_packed_joined(m.fields[number as i32], t, chunks);
    assert(merged_scalar(m.fields[number as i32], t, WireType::LengthDelimited, body + empty)
        == Ok::<(FieldView, nat), crate::error::Fault>((f, body.len())));
    lemma_merged_entry(
        m,
        descriptors,
        message,
        number,
        WireType::LengthDelimited,
        body,
        empty,
        f,
    );
    assert(tag_bytes(number, WireType::LengthDelimited) + body + empty =~= tag_bytes(
        number,
        WireType::LengthDelimited,
    ) + body);
}


/// The chunks with one more after them are the chunks joined, then that
/// one.
pub proof fn lemma_joined_push(chunks: Seq<Seq<u8>>, last: Seq<u8>)
    ensures
        joined(chunks.push(last)) == joined(chunks) + last,
    decreases chunks.len(),
{
    if chunks.len() == 0 {
        assert(chunks.push(last).drop_first() =~= chunks);
        assert(joined(chunks.push(last)) =~= joined(chunks) + last);
    } else {
        lemma_joined_push(chunks.drop_first(), last);
        assert(chunks.push(last).drop_first() =~= chunks.drop_first().push(last));
        assert(joined(chunks.push(last)) =~= joined(chunks) + last);
    }
}

/// The entries of the values of a repeated field, each on its own.
pub open spec fn each_entry(values: Seq<ValueView>, number: u32, count: nat) -> Seq<Seq<u8>> {
    Seq::new(count, |i: int| values[i].entry(number))
}

/// A repeated field leaves no element out. What it writes is one complete
/// entry for each of its values, in their order, whatever the values are:
/// an entry is a tag and at least one byte more, also for a zero and for an
/// empty value.
pub proof fn repeated_elements_are_all_written(
    values: Seq<ValueView>,
    number: u32,
    repeated_elem: bool,
    count: nat,
)
    requires
        valid_number(number as int),
        count <= values.len(),
    ensures
        crate::model::entries(values, number, count) == joined(each_entry(values, number, count)),
        FieldView::Repeated(values).written(number, repeated_elem) == crate::model::entries(
            values,
            number,
            values.len(),
        ),
        forall|i: int|
            0 <= i < values.len() ==> (#[trigger] values[i]).entry(number).len()
                >= crate::wire::tag_len(number) + 1,
    decreases count,
{
    assert forall|i: int| 0 <= i < values.len() implies (#[trigger] values[i]).entry(number).len()
        >= crate::wire::tag_len(number) + 1 by {
        lemma_entry_longer(values[i], number);
    }
    if count == 0 {
        assert(joined(each_entry(values, number, count)) =~= Seq::<u8>::empty());
    } else {
        let before = (count - 1) as nat;
        repeated_elements_are_all_written(values, number, repeated_elem, before);
        lemma_joined_push(each_entry(values, number, before), values[count - 1].entry(number));
        assert(each_entry(values, number, before).push(values[count - 1].entry(number))
            =~= each_entry(values, number, count));
    }
}

/// An entry is its tag and at least one byte more.
pub proof fn lemma_entry_longer(v: ValueView, number: u32)
    requires
        valid_number(number as int),
    ensures
        v.entry(number).len() >= crate::wire::tag_len(number) + 1,
{
    lemma_tag_len(number, v.wire_type());
    match v {
        ValueView::Bool(b) => {
            crate::wire::lemma_varint_bytes_len(if b { 1 } else { 0 });
        },
        ValueView::I32(x) => {
            crate::wire::lemma_varint_bytes_len(crate::wire::unsigned64(x as int) as nat);
        },
        ValueView::I64(x) => {
            crate::wire::lemma_varint_bytes_len(crate::wire::unsigned64(x as int) as nat);
        },
        ValueView::U32(x) => {
            crate::wire::lemma_varint_bytes_len(x as nat);
        },
        ValueView::U64(x) => {
            crate::wire::lemma_varint_bytes_len(x as nat);
        },
        ValueView::Enum(x) => {
            crate::wire::lemma_varint_bytes_len(crate::wire::unsigned64(x as int) as nat);
        },
        ValueView::Bytes(b) => {
            crate::wire::lemma_varint_bytes_len(b.len());
        },
        ValueView::String(s) => {
            crate::wire::lemma_varint_bytes_len(vstd::utf8::encode_utf8(s).len());
        },
        ValueView::Message(m) => {
            crate::wire::lemma_varint_bytes_len(m.wire().len());
        },
        _ => {},
    }
}

/// The values that the chunks encode, in their order.
pub open spec fn values_of(t: FieldType, chunks: Seq<Seq<u8>>) -> Seq<ValueView> {
    Seq::new(chunks.len(), |i: int| value_of(t, chunks[i]))
}

/// A repeated field that takes values in holds them after its own.
pub proof fn lemma_put_all_appends(held: Seq<ValueView>, t: FieldType, chunks: Seq<Seq<u8>>)
    ensures
        put_all(FieldView::Repeated(held), t, chunks) == FieldView::Repeated(
            held + values_of(t, chunks),
        ),
    decreases chunks.len(),
{
    if chunks.len() == 0 {
        assert(held + values_of(t, chunks) =~= held);
    } else {
        let tail = chunks.drop_first();
        lemma_put_all_appends(held.push(value_of(t, chunks[0])), t, tail);
        assert(held.push(value_of(t, chunks[0])) + values_of(t, tail) =~= held + values_of(
            t,
            chunks,
        ));
    }
}

/// Packed and unpacked values merge alike into a field. Take values of a
/// packable type, each encoded as one chunk of bytes. Merging one
/// length-delimited run that holds the chunks back to back succeeds and
/// leaves the field as merging the chunks one by one, each with the wire
/// type of its own, leaves it: a repeated field holds the values after its
/// own, in their order.
pub proof fn packed_and_unpacked_merge_alike(
    field: FieldView,
    descriptors: Descriptors,
    t: FieldType,
    chunks: Seq<Seq<u8>>,
)
    requires
        t.packable(),
        joined(chunks).len() <= u64::MAX,
        forall|i: int| 0 <= i < chunks.len() ==> one_value(t, #[trigger] chunks[i]),
    ensures
        merged_field(
            field,
            descriptors,
            t,
            WireType::LengthDelimited,
            delimited_bytes(joined(chunks)),
        ) == Ok::<(FieldView, nat), crate::error::Fault>(
            (put_all(field, t, chunks), delimited_bytes(joined(chunks)).len()),
        ),
        forall|f: FieldView, i: int|
            0 <= i < chunks.len() ==> #[trigger] merged_field(
                f,
                descriptors,
                t,
                t.wire_type(),
                chunks[i],
            ) == Ok::<(FieldView, nat), crate::error::Fault>(
                (f.put(value_of(t, chunks[i])), chunks[i].len()),
            ),
        field matches FieldView::Repeated(held) ==> put_all(field, t, chunks)
            == FieldView::Repeated(held + values_of(t, chunks)),
{
    let empty = Seq::<u8>::empty();
    let run = delimited_bytes(joined(chunks));
    lemma_run_round_trip(joined(chunks), empty);
    assert(run + empty =~= run);
    lemma_packed_joined(field, t, chunks);
    match field {
        FieldView::Repeated(held) => {
            lemma_put_all_appends(held, t, chunks);
        },
        _ => {},
    }
}

} // verus!
