//! The binary wire format, stated as mathematics.
//!
//! Every function here is a specification: it says which bytes stand for a
//! value and which value a run of bytes stands for. The executable codec is
//! held to these statements, and the laws of the crate are proved from them.
use vstd::prelude::*;

verus! {

/// The wire type that the low three bits of a tag carry.
#[derive(Clone, Copy, Debug, PartialEq, Eq, Structural)]
pub enum WireType {
    /// A base-128 variable-length integer.
    Varint,
    /// Eight bytes, little endian.
    Fixed64,
    /// A varint length followed by that many bytes.
    LengthDelimited,
    /// Start of a group.
    StartGroup,
    /// End of a group.
    EndGroup,
    /// Four bytes, little endian.
    Fixed32,
}

impl WireType {
    /// The number that stands for this wire type in a tag.
    pub open spec fn code(self) -> nat {
        match self {
            WireType::Varint => 0,
            WireType::Fixed64 => 1,
            WireType::LengthDelimited => 2,
            WireType::StartGroup => 3,
            WireType::EndGroup => 4,
            WireType::Fixed32 => 5,
        }
    }

    /// The wire type that a number stands for, if any.
    pub open spec fn of_code(code: nat) -> Option<WireType> {
        if code == 0 {
            Some(WireType::Varint)
        } else if code == 1 {
            Some(WireType::Fixed64)
        } else if code == 2 {
            Some(WireType::LengthDelimited)
        } else if code == 3 {
            Some(WireType::StartGroup)
        } else if code == 4 {
            Some(WireType::EndGroup)
        } else if code == 5 {
            Some(WireType::Fixed32)
        } else {
            None
        }
    }
}

/// The largest field number that a tag can carry.
pub const FIELD_NUMBER_MAX: u32 = 0x1fff_ffff;

/// Whether `number` can stand in a tag.
pub open spec fn valid_number(number: int) -> bool {
    1 <= number <= FIELD_NUMBER_MAX
}

/// The varint encoding of `v`: seven bits a byte, least significant group
/// first, the high bit set on every byte but the last.
pub open spec fn varint_bytes(v: nat) -> Seq<u8>
    decreases v,
{
    if v < 128 {
        seq![v as u8]
    } else {
        seq![(v % 128 + 128) as u8] + varint_bytes(v / 128)
    }
}

/// The number of bytes in the varint encoding of `v`.
pub open spec fn varint_len(v: nat) -> nat
    decreases v,
{
    if v < 128 {
        1
    } else {
        1 + varint_len(v / 128)
    }
}

/// Reads a varint whose byte of index `i` is `s[0]`: the value that the bytes
/// from there on contribute (in units of `128^i`) and how many they are.
///
/// A varint has at most ten bytes. Of the tenth only the lowest bit counts;
/// the others would lie beyond bit 63 and are dropped. `None` when the bytes
/// end inside the varint or the tenth byte still has its high bit set.
pub open spec fn varint_from(s: Seq<u8>, i: nat) -> Option<(nat, nat)>
    decreases s.len(),
{
    if i >= 10 || s.len() == 0 {
        None
    } else {
        let low: nat = if i == 9 {
            (s[0] % 2) as nat
        } else {
            (s[0] % 128) as nat
        };
        if s[0] < 128 {
            Some((low, 1))
        } else {
            match varint_from(s.skip(1), i + 1) {
                Some((high, n)) => Some((low + 128 * high, n + 1)),
                None => None,
            }
        }
    }
}

/// The varint at the start of `s` and the number of bytes it takes.
pub open spec fn varint_at(s: Seq<u8>) -> Option<(u64, nat)> {
    match varint_from(s, 0) {
        Some((v, n)) => Some((v as u64, n)),
        None => None,
    }
}

/// The largest value that the bytes of a varint from index `i` on can
/// contribute, plus one.
pub open spec fn varint_room(i: nat) -> nat {
    if i == 0 {
        0x1_0000_0000_0000_0000
    } else if i == 1 {
        0x200_0000_0000_0000
    } else if i == 2 {
        0x4_0000_0000_0000
    } else if i == 3 {
        0x800_0000_0000
    } else if i == 4 {
        0x10_0000_0000
    } else if i == 5 {
        0x2000_0000
    } else if i == 6 {
        0x40_0000
    } else if i == 7 {
        0x8000
    } else if i == 8 {
        0x100
    } else if i == 9 {
        2
    } else {
        1
    }
}

/// What `varint_from` returns is within the room of its index, and its
/// length is between one and the bytes that were there.
pub proof fn lemma_varint_from_bounds(s: Seq<u8>, i: nat)
    ensures
        match varint_from(s, i) {
            Some((v, n)) => v < varint_room(i) && 1 <= n <= s.len() && n <= 10 - i,
            None => true,
        },
    decreases s.len(),
{
    if i < 10 && s.len() > 0 && s[0] >= 128 {
        lemma_varint_from_bounds(s.skip(1), i + 1);
    }
}

/// A varint that was read fits in 64 bits and takes one to ten bytes.
pub proof fn lemma_varint_at_bounds(s: Seq<u8>)
    ensures
        match varint_at(s) {
            Some((v, n)) => 1 <= n <= s.len() && n <= 10 && varint_from(s, 0) == Some(
                (v as nat, n),
            ),
            None => varint_from(s, 0) is None,
        },
{
    lemma_varint_from_bounds(s, 0);
}

/// The varint encoding has `varint_len` bytes: between one and ten for a
/// value of 64 bits.
pub proof fn lemma_varint_bytes_len(v: nat)
    ensures
        varint_bytes(v).len() == varint_len(v),
        varint_len(v) >= 1,
    decreases v,
{
    if v >= 128 {
        lemma_varint_bytes_len(v / 128);
    }
}

/// A value below the room of index `i` has at most `10 - i` bytes.
pub proof fn lemma_varint_len_room(v: nat, i: nat)
    requires
        i <= 9,
        v < varint_room(i),
    ensures
        varint_len(v) <= 10 - i,
    decreases v,
{
    if v >= 128 {
        lemma_varint_len_room(v / 128, i + 1);
    }
}

/// Reading back what was written: the encoding of `v`, followed by anything,
/// reads as `v` and takes exactly the bytes of the encoding.
pub proof fn lemma_varint_from_bytes(v: nat, i: nat, rest: Seq<u8>)
    requires
        i <= 9,
        v < varint_room(i),
    ensures
        varint_from(varint_bytes(v) + rest, i) == Some((v, varint_len(v))),
    decreases v,
{
    let s = varint_bytes(v) + rest;
    if v < 128 {
        assert(s[0] == v as u8);
    } else {
        let tail = varint_bytes(v / 128);
        assert(s[0] == (v % 128 + 128) as u8);
        assert(s.skip(1) =~= tail + rest);
        lemma_varint_from_bytes(v / 128, i + 1, rest);
    }
}

/// The round trip for a value of 64 bits.
pub proof fn lemma_varint_round_trip(v: u64, rest: Seq<u8>)
    ensures
        varint_at(varint_bytes(v as nat) + rest) == Some((v, varint_len(v as nat))),
        varint_bytes(v as nat).len() == varint_len(v as nat),
        1 <= varint_len(v as nat) <= 10,
{
    lemma_varint_from_bytes(v as nat, 0, rest);
    lemma_varint_bytes_len(v as nat);
    lemma_varint_len_room(v as nat, 0);
}


/// The value of the low 32 bits of `v`, as `as u32` leaves them.
pub open spec fn low32(v: u64) -> u32 {
    (v % 0x1_0000_0000) as u32
}

/// The signed reading of 32 bits in two's complement.
pub open spec fn signed32(v: u32) -> i32 {
    if v < 0x8000_0000 {
        v as i32
    } else {
        (v - 0x1_0000_0000) as i32
    }
}

/// The signed reading of 64 bits in two's complement.
pub open spec fn signed64(v: u64) -> i64 {
    if v < 0x8000_0000_0000_0000 {
        v as i64
    } else {
        (v - 0x1_0000_0000_0000_0000) as i64
    }
}

/// The 64 bits that stand for `x` in two's complement; a narrower signed
/// integer is sign-extended to them.
pub open spec fn unsigned64(x: int) -> u64 {
    if x >= 0 {
        x as u64
    } else {
        (x + 0x1_0000_0000_0000_0000) as u64
    }
}

/// The signed integer that the zigzag code `n` stands for: even codes are
/// the non-negative integers, odd codes the negative ones.
pub open spec fn zigzag(n: nat) -> int {
    if n % 2 == 0 {
        n as int / 2
    } else {
        -(n as int / 2) - 1
    }
}

/// The four bytes of `v`, least significant first.
pub open spec fn le32_bytes(v: u32) -> Seq<u8> {
    seq![
        (v % 256) as u8,
        (v / 0x100 % 256) as u8,
        (v / 0x1_0000 % 256) as u8,
        (v / 0x100_0000 % 256) as u8,
    ]
}

/// The eight bytes of `v`, least significant first.
pub open spec fn le64_bytes(v: u64) -> Seq<u8> {
    le32_bytes((v % 0x1_0000_0000) as u32) + le32_bytes((v / 0x1_0000_0000) as u32)
}

/// The number that four bytes stand for, least significant first.
pub open spec fn le32_value(s: Seq<u8>) -> u32
    recommends
        s.len() >= 4,
{
    (s[0] + 0x100 * s[1] + 0x1_0000 * s[2] + 0x100_0000 * s[3]) as u32
}

/// The number that eight bytes stand for, least significant first.
pub open spec fn le64_value(s: Seq<u8>) -> u64
    recommends
        s.len() >= 8,
{
    (le32_value(s) + 0x1_0000_0000 * le32_value(s.skip(4))) as u64
}

/// The packed value of a tag: the field number above three bits of wire type.
pub open spec fn tag_value(number: u32, wire_type: WireType) -> nat {
    number as nat * 8 + wire_type.code()
}

/// The bytes of a tag.
pub open spec fn tag_bytes(number: u32, wire_type: WireType) -> Seq<u8> {
    varint_bytes(tag_value(number, wire_type))
}

/// The number of bytes of a tag. It is that of the tag with any wire type:
/// the three bits of a wire type do not change the length.
pub open spec fn tag_len(number: u32) -> nat {
    varint_len(tag_value(number, WireType::Fixed64))
}

/// What was read from the start of a run of bytes: a value and the number of
/// bytes that it took, or nothing where the bytes do not hold one.
pub type Read<T> = Option<(T, nat)>;

/// The tag at the start of `s`: the low 32 bits of a varint, whose low three
/// bits name a wire type and whose other bits are a field number above zero.
pub open spec fn tag_at(s: Seq<u8>) -> Read<(u32, WireType)> {
    match varint_at(s) {
        Some((v, n)) => {
            let t = low32(v);
            match WireType::of_code((t % 8) as nat) {
                Some(wire_type) => if t / 8 == 0 {
                    None
                } else {
                    Some((((t / 8) as u32, wire_type), n))
                },
                None => None,
            }
        },
        None => None,
    }
}

/// A `uint64` at the start of `s`.
pub open spec fn uint64_at(s: Seq<u8>) -> Read<u64> {
    varint_at(s)
}

/// A `uint32` at the start of `s`: the low 32 bits of a varint.
pub open spec fn uint32_at(s: Seq<u8>) -> Read<u32> {
    match varint_at(s) {
        Some((v, n)) => Some((low32(v), n)),
        None => None,
    }
}

/// An `int64` at the start of `s`.
pub open spec fn int64_at(s: Seq<u8>) -> Read<i64> {
    match varint_at(s) {
        Some((v, n)) => Some((signed64(v), n)),
        None => None,
    }
}

/// An `int32` at the start of `s`: the low 32 bits of a varint, read as
/// signed.
pub open spec fn int32_at(s: Seq<u8>) -> Read<i32> {
    match varint_at(s) {
        Some((v, n)) => Some((signed32(low32(v)), n)),
        None => None,
    }
}

/// A `sint64` at the start of `s`.
pub open spec fn sint64_at(s: Seq<u8>) -> Read<i64> {
    match varint_at(s) {
        Some((v, n)) => Some((zigzag(v as nat) as i64, n)),
        None => None,
    }
}

/// A `sint32` at the start of `s`.
pub open spec fn sint32_at(s: Seq<u8>) -> Read<i32> {
    match varint_at(s) {
        Some((v, n)) => Some((zigzag(low32(v) as nat) as i32, n)),
        None => None,
    }
}

/// A `bool` at the start of `s`: whether the low 32 bits of a varint are not
/// all zero.
pub open spec fn bool_at(s: Seq<u8>) -> Read<bool> {
    match varint_at(s) {
        Some((v, n)) => Some((low32(v) != 0, n)),
        None => None,
    }
}

/// A `fixed32` at the start of `s`.
pub open spec fn fixed32_at(s: Seq<u8>) -> Read<u32> {
    if s.len() >= 4 {
        Some((le32_value(s), 4))
    } else {
        None
    }
}

/// A `fixed64` at the start of `s`.
pub open spec fn fixed64_at(s: Seq<u8>) -> Read<u64> {
    if s.len() >= 8 {
        Some((le64_value(s), 8))
    } else {
        None
    }
}

/// An `sfixed32` at the start of `s`.
pub open spec fn sfixed32_at(s: Seq<u8>) -> Read<i32> {
    match fixed32_at(s) {
        Some((v, n)) => Some((signed32(v), n)),
        None => None,
    }
}

/// An `sfixed64` at the start of `s`.
pub open spec fn sfixed64_at(s: Seq<u8>) -> Read<i64> {
    match fixed64_at(s) {
        Some((v, n)) => Some((signed64(v), n)),
        None => None,
    }
}

/// A length-delimited payload at the start of `s`: a varint whose low 32 bits
/// are a length, then that many bytes, all of which must be there.
pub open spec fn bytes_at(s: Seq<u8>) -> Read<Seq<u8>> {
    match varint_at(s) {
        Some((v, n)) => {
            let len = low32(v) as nat;
            if n + len <= s.len() {
                Some((s.subrange(n as int, (n + len) as int), n + len))
            } else {
                None
            }
        },
        None => None,
    }
}

/// A run at the start of `s`, as a packed run and a nested message come: a
/// varint that is a length, all 64 bits of it, then that many bytes, all of
/// which must be there.
pub open spec fn run_at(s: Seq<u8>) -> Read<Seq<u8>> {
    match varint_at(s) {
        Some((v, n)) => if n + v <= s.len() {
            Some((s.subrange(n as int, (n + v) as int), n + v as nat))
        } else {
            None
        },
        None => None,
    }
}

/// A string at the start of `s`: a length-delimited payload that is UTF-8.
pub open spec fn string_at(s: Seq<u8>) -> Read<Seq<char>> {
    match bytes_at(s) {
        Some((payload, n)) => if vstd::utf8::valid_utf8(payload) {
            Some((vstd::utf8::decode_utf8(payload), n))
        } else {
            None
        },
        None => None,
    }
}

/// A length-delimited payload as it is written: its length, then the bytes.
pub open spec fn delimited_bytes(payload: Seq<u8>) -> Seq<u8> {
    varint_bytes(payload.len()) + payload
}

/// The bytes that the value of an unknown field takes on the wire for each
/// wire type that carries a value.
pub open spec fn value_extent(wire_type: WireType, s: Seq<u8>) -> Option<nat> {
    match wire_type {
        WireType::Varint => match varint_at(s) {
            Some((_, n)) => Some(n),
            None => None,
        },
        WireType::Fixed64 => if s.len() >= 8 {
            Some(8)
        } else {
            None
        },
        WireType::Fixed32 => if s.len() >= 4 {
            Some(4)
        } else {
            None
        },
        WireType::LengthDelimited => match bytes_at(s) {
            Some((_, n)) => Some(n),
            None => None,
        },
        WireType::StartGroup => None,
        WireType::EndGroup => None,
    }
}

/// Whatever is read from the start of some bytes takes at least one byte
/// and no more than there are.
pub proof fn lemma_read_bounds(s: Seq<u8>)
    ensures
        match tag_at(s) {
            Some((_, n)) => 1 <= n <= s.len(),
            None => true,
        },
        match bytes_at(s) {
            Some((payload, n)) => 1 <= n <= s.len() && payload.len() < n,
            None => true,
        },
        match run_at(s) {
            Some((payload, n)) => 1 <= n <= s.len() && payload.len() < n,
            None => true,
        },
        forall|wire_type: WireType|
            match #[trigger] value_extent(wire_type, s) {
                Some(n) => 1 <= n <= s.len(),
                None => true,
            },
{
    lemma_varint_at_bounds(s);
}

/// The bytes that the rest of a group takes, its end tag included: fields
/// are passed over one by one until an end tag comes. A group inside a
/// group is not passed over.
pub open spec fn group_extent(s: Seq<u8>) -> Option<nat>
    decreases s.len(),
    via group_extent_decreases
{
    match tag_at(s) {
        Some(((_, wire_type), n)) => if wire_type == WireType::EndGroup {
            Some(n)
        } else {
            match value_extent(wire_type, s.skip(n as int)) {
                Some(k) => match group_extent(s.skip((n + k) as int)) {
                    Some(r) => Some(n + k + r),
                    None => None,
                },
                None => None,
            }
        },
        None => None,
    }
}

#[via_fn]
proof fn group_extent_decreases(s: Seq<u8>) {
    lemma_read_bounds(s);
    match tag_at(s) {
        Some((_, n)) => {
            lemma_read_bounds(s.skip(n as int));
        },
        None => {},
    }
}

/// The bytes that follow the tag of a field to pass over: its value, or for
/// a group everything up to and with the end tag.
pub open spec fn skip_extent(wire_type: WireType, s: Seq<u8>) -> Option<nat> {
    if wire_type == WireType::StartGroup {
        group_extent(s)
    } else {
        value_extent(wire_type, s)
    }
}


/// A varint is read from its own bytes alone: what follows them does not
/// matter.
pub proof fn lemma_varint_from_prefix(s: Seq<u8>, i: nat, rest: Seq<u8>)
    ensures
        match varint_from(s, i) {
            Some((v, n)) => n <= s.len() && varint_from(s.take(n as int) + rest, i) == Some(
                (v, n),
            ),
            None => true,
        },
    decreases s.len(),
{
    lemma_varint_from_bounds(s, i);
    match varint_from(s, i) {
        Some((v, n)) => {
            let cut = s.take(n as int) + rest;
            assert(cut[0] == s[0]);
            if s[0] >= 128 {
                lemma_varint_from_prefix(s.skip(1), i + 1, rest);
                lemma_varint_from_bounds(s.skip(1), i + 1);
                assert(cut.skip(1) =~= s.skip(1).take(n - 1) + rest);
            }
        },
        None => {},
    }
}

/// The varint at the start of some bytes is read from its own bytes alone.
pub proof fn lemma_varint_at_prefix(s: Seq<u8>, rest: Seq<u8>)
    ensures
        match varint_at(s) {
            Some((v, n)) => n <= s.len() && varint_at(s.take(n as int) + rest) == Some((v, n)),
            None => true,
        },
{
    lemma_varint_from_prefix(s, 0, rest);
}

/// Reading back a tag that was written: the bytes of a tag, followed by
/// anything, read as the field number and the wire type that went in.
pub proof fn lemma_tag_round_trip(number: u32, wire_type: WireType, rest: Seq<u8>)
    requires
        valid_number(number as int),
    ensures
        tag_at(tag_bytes(number, wire_type) + rest) == Some(
            ((number, wire_type), tag_bytes(number, wire_type).len()),
        ),
{
    let v = tag_value(number, wire_type);
    assert(v < 0x1_0000_0000);
    lemma_varint_round_trip(v as u64, rest);
    assert(v % 8 == wire_type.code() && v / 8 == number);
    assert(WireType::of_code(wire_type.code()) == Some(wire_type));
}

/// Four bytes read back as the number that they were written for.
pub proof fn lemma_le32_round_trip(v: u32, rest: Seq<u8>)
    ensures
        le32_bytes(v).len() == 4,
        le32_value(le32_bytes(v) + rest) == v,
{
    let s = le32_bytes(v) + rest;
    assert(s[0] == le32_bytes(v)[0] && s[1] == le32_bytes(v)[1] && s[2] == le32_bytes(v)[2]
        && s[3] == le32_bytes(v)[3]);
}

/// Eight bytes read back as the number that they were written for.
pub proof fn lemma_le64_round_trip(v: u64, rest: Seq<u8>)
    ensures
        le64_bytes(v).len() == 8,
        le64_value(le64_bytes(v) + rest) == v,
{
    let low = (v % 0x1_0000_0000) as u32;
    let high = (v / 0x1_0000_0000) as u32;
    lemma_le32_round_trip(low, le32_bytes(high) + rest);
    lemma_le32_round_trip(high, rest);
    let s = le64_bytes(v) + rest;
    assert(s =~= le32_bytes(low) + (le32_bytes(high) + rest));
    assert(s.skip(4) =~= le32_bytes(high) + rest);
}


/// A `bool` reads back as it was written.
pub proof fn lemma_bool_round_trip(b: bool, rest: Seq<u8>)
    ensures
        bool_at(varint_bytes(if b { 1 } else { 0 }) + rest) == Some((b, 1nat)),
        varint_bytes(if b { 1 } else { 0 }).len() == 1,
{
    lemma_varint_round_trip(if b { 1 } else { 0 }, rest);
}

/// An `int32` reads back as it was written.
pub proof fn lemma_int32_round_trip(x: i32, rest: Seq<u8>)
    ensures
        int32_at(varint_bytes(unsigned64(x as int) as nat) + rest) == Some(
            (x, varint_bytes(unsigned64(x as int) as nat).len()),
        ),
{
    let v = unsigned64(x as int);
    lemma_varint_round_trip(v, rest);
    assert(signed32(low32(v)) == x) by {
        if x >= 0 {
            assert(v == x);
            assert(low32(v) == x);
        } else {
            assert(v == x + 0x1_0000_0000_0000_0000);
            assert(v % 0x1_0000_0000 == x + 0x1_0000_0000);
        }
    }
}

/// An `int64` reads back as it was written.
pub proof fn lemma_int64_round_trip(x: i64, rest: Seq<u8>)
    ensures
        int64_at(varint_bytes(unsigned64(x as int) as nat) + rest) == Some(
            (x, varint_bytes(unsigned64(x as int) as nat).len()),
        ),
{
    lemma_varint_round_trip(unsigned64(x as int), rest);
}

/// A `uint32` reads back as it was written.
pub proof fn lemma_uint32_round_trip(x: u32, rest: Seq<u8>)
    ensures
        uint32_at(varint_bytes(x as nat) + rest) == Some((x, varint_bytes(x as nat).len())),
{
    lemma_varint_round_trip(x as u64, rest);
}

/// A `uint64` reads back as it was written.
pub proof fn lemma_uint64_round_trip(x: u64, rest: Seq<u8>)
    ensures
        uint64_at(varint_bytes(x as nat) + rest) == Some((x, varint_bytes(x as nat).len())),
{
    lemma_varint_round_trip(x, rest);
}

/// A payload that was written behind its length reads back as it was, and
/// takes exactly the bytes that were written.
pub proof fn lemma_delimited_round_trip(payload: Seq<u8>, rest: Seq<u8>)
    requires
        payload.len() <= u32::MAX,
    ensures
        bytes_at(delimited_bytes(payload) + rest) == Some(
            (payload, delimited_bytes(payload).len()),
        ),
{
    lemma_varint_round_trip(payload.len() as u64, payload + rest);
    let s = delimited_bytes(payload) + rest;
    assert(s =~= varint_bytes(payload.len()) + (payload + rest));
    let n = varint_len(payload.len());
    assert(s.subrange(n as int, (n + payload.len()) as int) =~= payload);
}

/// A run that was written behind its length reads back as it was.
pub proof fn lemma_run_round_trip(payload: Seq<u8>, rest: Seq<u8>)
    requires
        payload.len() <= u64::MAX,
    ensures
        run_at(delimited_bytes(payload) + rest) == Some((payload, delimited_bytes(payload).len())),
{
    lemma_varint_round_trip(payload.len() as u64, payload + rest);
    let s = delimited_bytes(payload) + rest;
    assert(s =~= varint_bytes(payload.len()) + (payload + rest));
    let n = varint_len(payload.len());
    assert(s.subrange(n as int, (n + payload.len()) as int) =~= payload);
}

/// A text that was written reads back as it was.
pub proof fn lemma_string_round_trip(text: Seq<char>, rest: Seq<u8>)
    requires
        vstd::utf8::encode_utf8(text).len() <= u32::MAX,
    ensures
        string_at(delimited_bytes(vstd::utf8::encode_utf8(text)) + rest) == Some(
            (text, delimited_bytes(vstd::utf8::encode_utf8(text)).len()),
        ),
{
    lemma_delimited_round_trip(vstd::utf8::encode_utf8(text), rest);
    vstd::utf8::encode_utf8_valid_utf8(text);
    vstd::utf8::encode_utf8_decode_utf8(text);
}

} // verus!
