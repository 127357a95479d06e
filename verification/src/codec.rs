//! The calls into the `protobuf` crate.
//!
//! Each function here hands plain values to one function of the crate's coded
//! streams and hands plain values back. Verus does not read their bodies: the
//! contracts say what the crate's source shows of each call, over the
//! specification of the wire format, and are believed without proof.
//!
//! A reader works on a stream over the bytes it is given and reports the
//! value together with the stream's position after the call, which is the
//! number of bytes that the value took. A writer works on a stream that
//! appends to the vector it is given, and flushes it. Appending to a vector
//! is the one target of a coded output stream that never fails.
use vstd::prelude::*;
use crate::wire::{
    bool_at, bytes_at, fixed32_at, fixed64_at, int32_at, int64_at, le32_bytes, le64_bytes,
    sfixed32_at, sfixed64_at, sint32_at, sint64_at, skip_extent, string_at, tag_at, tag_bytes,
    tag_len, uint32_at, uint64_at, unsigned64, valid_number, varint_bytes, varint_len, Read,
    WireType,
};
use protobuf::{CodedInputStream, CodedOutputStream, ProtobufError};

verus! {

#[verifier::external_type_specification]
#[verifier::external_body]
pub struct ExProtobufError(ProtobufError);

/// Whether a reader's result is what the specification reads from the same
/// bytes: the same value and length, or a failure where it reads nothing.
pub open spec fn reads<T>(r: Result<(T, usize), ProtobufError>, want: Read<T>) -> bool {
    match (r, want) {
        (Ok((v, n)), Some((w, m))) => v == w && n == m,
        (Err(_), None) => true,
        _ => false,
    }
}

/// Whether a reader's result holds the bytes that the specification reads.
pub open spec fn reads_bytes(
    r: Result<(Vec<u8>, usize), ProtobufError>,
    want: Read<Seq<u8>>,
) -> bool {
    match (r, want) {
        (Ok((v, n)), Some((w, m))) => v@ == w && n == m,
        (Err(_), None) => true,
        _ => false,
    }
}

/// Whether a reader's result holds the text that the specification reads.
pub open spec fn reads_text(
    r: Result<(String, usize), ProtobufError>,
    want: Read<Seq<char>>,
) -> bool {
    match (r, want) {
        (Ok((v, n)), Some((w, m))) => v@ == w && n == m,
        (Err(_), None) => true,
        _ => false,
    }
}

/// Whether a reader passed over as many bytes as the specification does.
pub open spec fn skips(r: Result<usize, ProtobufError>, want: Option<nat>) -> bool {
    match (r, want) {
        (Ok(n), Some(m)) => n == m,
        (Err(_), None) => true,
        _ => false,
    }
}

/// `CodedInputStream::read_tag_unpack`: a varint whose low 32 bits hold a
/// known wire type and a field number above zero.
#[verifier::external_body]
pub(crate) fn read_tag_unpack(bytes: &[u8]) -> (r: Result<((u32, WireType), usize), ProtobufError>)
    ensures
        reads(r, tag_at(bytes@)),
{
    let mut is = CodedInputStream::from_bytes(bytes);
    let (number, wire_type) = is.read_tag_unpack()?;
    let wire_type = match wire_type {
        protobuf::wire_format::WireType::WireTypeVarint => WireType::Varint,
        protobuf::wire_format::WireType::WireTypeFixed64 => WireType::Fixed64,
        protobuf::wire_format::WireType::WireTypeLengthDelimited => WireType::LengthDelimited,
        protobuf::wire_format::WireType::WireTypeStartGroup => WireType::StartGroup,
        protobuf::wire_format::WireType::WireTypeEndGroup => WireType::EndGroup,
        protobuf::wire_format::WireType::WireTypeFixed32 => WireType::Fixed32,
    };
    Ok(((number, wire_type), is.pos() as usize))
}

/// `CodedInputStream::read_bool`: a varint whose low 32 bits are not zero.
#[verifier::external_body]
pub(crate) fn read_bool(bytes: &[u8]) -> (r: Result<(bool, usize), ProtobufError>)
    ensures
        reads(r, bool_at(bytes@)),
{
    let mut is = CodedInputStream::from_bytes(bytes);
    let v = is.read_bool()?;
    Ok((v, is.pos() as usize))
}

/// `CodedInputStream::read_int32`: the low 32 bits of a varint, as signed.
#[verifier::external_body]
pub(crate) fn read_int32(bytes: &[u8]) -> (r: Result<(i32, usize), ProtobufError>)
    ensures
        reads(r, int32_at(bytes@)),
{
    let mut is = CodedInputStream::from_bytes(bytes);
    let v = is.read_int32()?;
    Ok((v, is.pos() as usize))
}

/// `CodedInputStream::read_int64`: a varint, as signed.
#[verifier::external_body]
pub(crate) fn read_int64(bytes: &[u8]) -> (r: Result<(i64, usize), ProtobufError>)
    ensures
        reads(r, int64_at(bytes@)),
{
    let mut is = CodedInputStream::from_bytes(bytes);
    let v = is.read_int64()?;
    Ok((v, is.pos() as usize))
}

/// `CodedInputStream::read_sint32`: the low 32 bits of a varint, as a zigzag
/// code.
#[verifier::external_body]
pub(crate) fn read_sint32(bytes: &[u8]) -> (r: Result<(i32, usize), ProtobufError>)
    ensures
        reads(r, sint32_at(bytes@)),
{
    let mut is = CodedInputStream::from_bytes(bytes);
    let v = is.read_sint32()?;
    Ok((v, is.pos() as usize))
}

/// `CodedInputStream::read_sint64`: a varint, as a zigzag code.
#[verifier::external_body]
pub(crate) fn read_sint64(bytes: &[u8]) -> (r: Result<(i64, usize), ProtobufError>)
    ensures
        reads(r, sint64_at(bytes@)),
{
    let mut is = CodedInputStream::from_bytes(bytes);
    let v = is.read_sint64()?;
    Ok((v, is.pos() as usize))
}

/// `CodedInputStream::read_uint32`: the low 32 bits of a varint.
#[verifier::external_body]
pub(crate) fn read_uint32(bytes: &[u8]) -> (r: Result<(u32, usize), ProtobufError>)
    ensures
        reads(r, uint32_at(bytes@)),
{
    let mut is = CodedInputStream::from_bytes(bytes);
    let v = is.read_uint32()?;
    Ok((v, is.pos() as usize))
}

/// `CodedInputStream::read_uint64`: a varint.
#[verifier::external_body]
pub(crate) fn read_uint64(bytes: &[u8]) -> (r: Result<(u64, usize), ProtobufError>)
    ensures
        reads(r, uint64_at(bytes@)),
{
    let mut is = CodedInputStream::from_bytes(bytes);
    let v = is.read_uint64()?;
    Ok((v, is.pos() as usize))
}

/// `CodedInputStream::read_fixed32`: four bytes, least significant first.
#[verifier::external_body]
pub(crate) fn read_fixed32(bytes: &[u8]) -> (r: Result<(u32, usize), ProtobufError>)
    ensures
        reads(r, fixed32_at(bytes@)),
{
    let mut is = CodedInputStream::from_bytes(bytes);
    let v = is.read_fixed32()?;
    Ok((v, is.pos() as usize))
}

/// `CodedInputStream::read_fixed64`: eight bytes, least significant first.
#[verifier::external_body]
pub(crate) fn read_fixed64(bytes: &[u8]) -> (r: Result<(u64, usize), ProtobufError>)
    ensures
        reads(r, fixed64_at(bytes@)),
{
    let mut is = CodedInputStream::from_bytes(bytes);
    let v = is.read_fixed64()?;
    Ok((v, is.pos() as usize))
}

/// `CodedInputStream::read_sfixed32`: four bytes, as signed.
#[verifier::external_body]
pub(crate) fn read_sfixed32(bytes: &[u8]) -> (r: Result<(i32, usize), ProtobufError>)
    ensures
        reads(r, sfixed32_at(bytes@)),
{
    let mut is = CodedInputStream::from_bytes(bytes);
    let v = is.read_sfixed32()?;
    Ok((v, is.pos() as usize))
}

/// `CodedInputStream::read_sfixed64`: eight bytes, as signed.
#[verifier::external_body]
pub(crate) fn read_sfixed64(bytes: &[u8]) -> (r: Result<(i64, usize), ProtobufError>)
    ensures
        reads(r, sfixed64_at(bytes@)),
{
    let mut is = CodedInputStream::from_bytes(bytes);
    let v = is.read_sfixed64()?;
    Ok((v, is.pos() as usize))
}

/// `CodedInputStream::read_float`, handed back as the bit pattern that it
/// read: four bytes, least significant first.
#[verifier::external_body]
pub(crate) fn read_float(bytes: &[u8]) -> (r: Result<(u32, usize), ProtobufError>)
    ensures
        reads(r, fixed32_at(bytes@)),
{
    let mut is = CodedInputStream::from_bytes(bytes);
    let v = is.read_float()?;
    Ok((v.to_bits(), is.pos() as usize))
}

/// `CodedInputStream::read_double`, handed back as the bit pattern that it
/// read: eight bytes, least significant first.
#[verifier::external_body]
pub(crate) fn read_double(bytes: &[u8]) -> (r: Result<(u64, usize), ProtobufError>)
    ensures
        reads(r, fixed64_at(bytes@)),
{
    let mut is = CodedInputStream::from_bytes(bytes);
    let v = is.read_double()?;
    Ok((v.to_bits(), is.pos() as usize))
}

/// `CodedInputStream::read_bytes`: a varint whose low 32 bits are a length,
/// then that many bytes; it fails where fewer are left.
#[verifier::external_body]
pub(crate) fn read_bytes(bytes: &[u8]) -> (r: Result<(Vec<u8>, usize), ProtobufError>)
    ensures
        reads_bytes(r, bytes_at(bytes@)),
{
    let mut is = CodedInputStream::from_bytes(bytes);
    let v = is.read_bytes()?;
    Ok((v, is.pos() as usize))
}

/// `CodedInputStream::read_string`: a length-delimited payload, which must
/// be UTF-8.
#[verifier::external_body]
pub(crate) fn read_string(bytes: &[u8]) -> (r: Result<(String, usize), ProtobufError>)
    ensures
        reads_text(r, string_at(bytes@)),
{
    let mut is = CodedInputStream::from_bytes(bytes);
    let v = is.read_string()?;
    Ok((v, is.pos() as usize))
}

/// `CodedInputStream::push_limit`, on a stream that is limited to `bytes`:
/// a limit that lies beyond the one in force is refused.
#[verifier::external_body]
pub(crate) fn push_limit(bytes: &[u8], limit: u64) -> (r: Result<(), ProtobufError>)
    ensures
        r is Ok <==> limit <= bytes@.len(),
{
    let mut is = CodedInputStream::from_bytes(bytes);
    is.push_limit(bytes.len() as u64)?;
    is.push_limit(limit)?;
    Ok(())
}

/// `protobuf::rt::read_unknown_or_skip_group`, for the bytes that it passes
/// over: the value of the wire type, or a group up to its end tag. What it
/// stores of the value is dropped.
#[verifier::external_body]
pub(crate) fn read_unknown_or_skip_group(bytes: &[u8], number: u32, wire_type: WireType) -> (r:
    Result<usize, ProtobufError>)
    ensures
        skips(r, skip_extent(wire_type, bytes@)),
{
    let wire_type = match wire_type {
        WireType::Varint => protobuf::wire_format::WireType::WireTypeVarint,
        WireType::Fixed64 => protobuf::wire_format::WireType::WireTypeFixed64,
        WireType::LengthDelimited => protobuf::wire_format::WireType::WireTypeLengthDelimited,
        WireType::StartGroup => protobuf::wire_format::WireType::WireTypeStartGroup,
        WireType::EndGroup => protobuf::wire_format::WireType::WireTypeEndGroup,
        WireType::Fixed32 => protobuf::wire_format::WireType::WireTypeFixed32,
    };
    let mut is = CodedInputStream::from_bytes(bytes);
    let mut unknown = protobuf::UnknownFields::new();
    protobuf::rt::read_unknown_or_skip_group(number, wire_type, &mut is, &mut unknown)?;
    Ok(is.pos() as usize)
}


/// `CodedOutputStream::write_tag`: the tag as a varint. The outside function
/// panics on a field number that no tag can carry.
#[verifier::external_body]
pub(crate) fn write_tag(out: &mut Vec<u8>, number: u32, wire_type: WireType) -> (r: Result<
    (),
    ProtobufError,
>)
    requires
        valid_number(number as int),
    ensures
        r is Ok,
        final(out)@ == old(out)@ + tag_bytes(number, wire_type),
{
    let wire_type = match wire_type {
        WireType::Varint => protobuf::wire_format::WireType::WireTypeVarint,
        WireType::Fixed64 => protobuf::wire_format::WireType::WireTypeFixed64,
        WireType::LengthDelimited => protobuf::wire_format::WireType::WireTypeLengthDelimited,
        WireType::StartGroup => protobuf::wire_format::WireType::WireTypeStartGroup,
        WireType::EndGroup => protobuf::wire_format::WireType::WireTypeEndGroup,
        WireType::Fixed32 => protobuf::wire_format::WireType::WireTypeFixed32,
    };
    let mut os = CodedOutputStream::vec(out);
    os.write_tag(number, wire_type)?;
    os.flush()
}

/// `CodedOutputStream::write_raw_varint32`: the varint of `v`.
#[verifier::external_body]
pub(crate) fn write_raw_varint32(out: &mut Vec<u8>, v: u32) -> (r: Result<(), ProtobufError>)
    ensures
        r is Ok,
        final(out)@ == old(out)@ + varint_bytes(v as nat),
{
    let mut os = CodedOutputStream::vec(out);
    os.write_raw_varint32(v)?;
    os.flush()
}

/// `CodedOutputStream::write_bool`: a varint tag, then one byte, 1 or 0.
#[verifier::external_body]
pub(crate) fn write_bool(out: &mut Vec<u8>, number: u32, v: bool) -> (r: Result<(), ProtobufError>)
    requires
        valid_number(number as int),
    ensures
        r is Ok,
        final(out)@ == old(out)@ + tag_bytes(number, WireType::Varint) + varint_bytes(
            if v {
                1
            } else {
                0
            },
        ),
{
    let mut os = CodedOutputStream::vec(out);
    os.write_bool(number, v)?;
    os.flush()
}

/// `CodedOutputStream::write_int32`: a varint tag, then the varint of `v`
/// sign-extended to 64 bits.
#[verifier::external_body]
pub(crate) fn write_int32(out: &mut Vec<u8>, number: u32, v: i32) -> (r: Result<(), ProtobufError>)
    requires
        valid_number(number as int),
    ensures
        r is Ok,
        final(out)@ == old(out)@ + tag_bytes(number, WireType::Varint) + varint_bytes(
            unsigned64(v as int) as nat,
        ),
{
    let mut os = CodedOutputStream::vec(out);
    os.write_int32(number, v)?;
    os.flush()
}

/// `CodedOutputStream::write_int64`: a varint tag, then the varint of the 64
/// bits of `v`.
#[verifier::external_body]
pub(crate) fn write_int64(out: &mut Vec<u8>, number: u32, v: i64) -> (r: Result<(), ProtobufError>)
    requires
        valid_number(number as int),
    ensures
        r is Ok,
        final(out)@ == old(out)@ + tag_bytes(number, WireType::Varint) + varint_bytes(
            unsigned64(v as int) as nat,
        ),
{
    let mut os = CodedOutputStream::vec(out);
    os.write_int64(number, v)?;
    os.flush()
}

/// `CodedOutputStream::write_uint32`: a varint tag, then the varint of `v`.
#[verifier::external_body]
pub(crate) fn write_uint32(out: &mut Vec<u8>, number: u32, v: u32) -> (r: Result<(), ProtobufError>)
    requires
        valid_number(number as int),
    ensures
        r is Ok,
        final(out)@ == old(out)@ + tag_bytes(number, WireType::Varint) + varint_bytes(v as nat),
{
    let mut os = CodedOutputStream::vec(out);
    os.write_uint32(number, v)?;
    os.flush()
}

/// `CodedOutputStream::write_uint64`: a varint tag, then the varint of `v`.
#[verifier::external_body]
pub(crate) fn write_uint64(out: &mut Vec<u8>, number: u32, v: u64) -> (r: Result<(), ProtobufError>)
    requires
        valid_number(number as int),
    ensures
        r is Ok,
        final(out)@ == old(out)@ + tag_bytes(number, WireType::Varint) + varint_bytes(v as nat),
{
    let mut os = CodedOutputStream::vec(out);
    os.write_uint64(number, v)?;
    os.flush()
}

/// `CodedOutputStream::write_enum`: a varint tag, then the varint of `v`
/// sign-extended to 64 bits.
#[verifier::external_body]
pub(crate) fn write_enum(out: &mut Vec<u8>, number: u32, v: i32) -> (r: Result<(), ProtobufError>)
    requires
        valid_number(number as int),
    ensures
        r is Ok,
        final(out)@ == old(out)@ + tag_bytes(number, WireType::Varint) + varint_bytes(
            unsigned64(v as int) as nat,
        ),
{
    let mut os = CodedOutputStream::vec(out);
    os.write_enum(number, v)?;
    os.flush()
}

/// `CodedOutputStream::write_fixed32`: a tag of the four-byte wire type, then
/// the four bytes of `bits`, least significant first. A `float` goes out
/// through it as its bit pattern, which is what the stream writes of one.
#[verifier::external_body]
pub(crate) fn write_fixed32(out: &mut Vec<u8>, number: u32, bits: u32) -> (r: Result<
    (),
    ProtobufError,
>)
    requires
        valid_number(number as int),
    ensures
        r is Ok,
        final(out)@ == old(out)@ + tag_bytes(number, WireType::Fixed32) + le32_bytes(bits),
{
    let mut os = CodedOutputStream::vec(out);
    os.write_fixed32(number, bits)?;
    os.flush()
}

/// `CodedOutputStream::write_fixed64`: a tag of the eight-byte wire type,
/// then the eight bytes of `bits`, least significant first. A `double` goes
/// out through it as its bit pattern.
#[verifier::external_body]
pub(crate) fn write_fixed64(out: &mut Vec<u8>, number: u32, bits: u64) -> (r: Result<
    (),
    ProtobufError,
>)
    requires
        valid_number(number as int),
    ensures
        r is Ok,
        final(out)@ == old(out)@ + tag_bytes(number, WireType::Fixed64) + le64_bytes(bits),
{
    let mut os = CodedOutputStream::vec(out);
    os.write_fixed64(number, bits)?;
    os.flush()
}

/// `CodedOutputStream::write_bytes`: a length-delimited tag, the length as a
/// varint of 32 bits, then the bytes.
#[verifier::external_body]
pub(crate) fn write_bytes(out: &mut Vec<u8>, number: u32, bytes: &[u8]) -> (r: Result<
    (),
    ProtobufError,
>)
    requires
        valid_number(number as int),
        bytes@.len() <= u32::MAX,
    ensures
        r is Ok,
        final(out)@ == old(out)@ + tag_bytes(number, WireType::LengthDelimited) + varint_bytes(
            bytes@.len(),
        ) + bytes@,
{
    let mut os = CodedOutputStream::vec(out);
    os.write_bytes(number, bytes)?;
    os.flush()
}

/// `CodedOutputStream::write_string`: as `write_bytes`, for the UTF-8 bytes
/// of the text.
#[verifier::external_body]
pub(crate) fn write_string(out: &mut Vec<u8>, number: u32, text: &str) -> (r: Result<
    (),
    ProtobufError,
>)
    requires
        valid_number(number as int),
        vstd::utf8::encode_utf8(text@).len() <= u32::MAX,
    ensures
        r is Ok,
        final(out)@ == old(out)@ + tag_bytes(number, WireType::LengthDelimited) + varint_bytes(
            vstd::utf8::encode_utf8(text@).len(),
        ) + vstd::utf8::encode_utf8(text@),
{
    let mut os = CodedOutputStream::vec(out);
    os.write_string(number, text)?;
    os.flush()
}

/// `protobuf::rt::tag_size`: the length of the tag's varint. The outside
/// function panics on a field number that no tag can carry.
#[verifier::external_body]
pub(crate) fn tag_size(number: u32) -> (n: u32)
    requires
        valid_number(number as int),
    ensures
        n == tag_len(number),
{
    protobuf::rt::tag_size(number)
}

/// `protobuf::rt::compute_raw_varint64_size`: the length of the varint.
#[verifier::external_body]
pub(crate) fn compute_raw_varint64_size(v: u64) -> (n: u32)
    ensures
        n == varint_len(v as nat),
{
    protobuf::rt::compute_raw_varint64_size(v)
}

/// `protobuf::rt::value_size` for an `i32` as a varint: the tag, then the
/// varint of the value sign-extended to 64 bits.
#[verifier::external_body]
pub(crate) fn value_size_i32(number: u32, v: i32) -> (n: u32)
    requires
        valid_number(number as int),
    ensures
        n == tag_len(number) + varint_len(unsigned64(v as int) as nat),
{
    protobuf::rt::value_size(number, v, protobuf::wire_format::WireType::WireTypeVarint)
}

/// `protobuf::rt::value_size` for an `i64` as a varint.
#[verifier::external_body]
pub(crate) fn value_size_i64(number: u32, v: i64) -> (n: u32)
    requires
        valid_number(number as int),
    ensures
        n == tag_len(number) + varint_len(unsigned64(v as int) as nat),
{
    protobuf::rt::value_size(number, v, protobuf::wire_format::WireType::WireTypeVarint)
}

/// `protobuf::rt::value_size` for a `u32` as a varint.
#[verifier::external_body]
pub(crate) fn value_size_u32(number: u32, v: u32) -> (n: u32)
    requires
        valid_number(number as int),
    ensures
        n == tag_len(number) + varint_len(v as nat),
{
    protobuf::rt::value_size(number, v, protobuf::wire_format::WireType::WireTypeVarint)
}

/// `protobuf::rt::value_size` for a `u64` as a varint.
#[verifier::external_body]
pub(crate) fn value_size_u64(number: u32, v: u64) -> (n: u32)
    requires
        valid_number(number as int),
    ensures
        n == tag_len(number) + varint_len(v as nat),
{
    protobuf::rt::value_size(number, v, protobuf::wire_format::WireType::WireTypeVarint)
}

} // verus!
