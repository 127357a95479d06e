//! The schema that drives decoding: which fields a message type has, and
//! what each of them holds.
use vstd::prelude::*;
use crate::value::Value;
use crate::wire::{valid_number, WireType};

verus! {

/// The declared type of a field, as schema resolution left it.
#[derive(Clone, Debug)]
pub enum FieldType {
    Bool,
    Int32,
    Int64,
    SInt32,
    SInt64,
    UInt32,
    UInt64,
    Fixed32,
    Fixed64,
    SFixed32,
    SFixed64,
    Float,
    Double,
    Bytes,
    String,
    /// An enum; its values are kept as raw codes, whatever the enum declares.
    Enum,
    /// A nested message, by the index of its type in the set of descriptors.
    Message(usize),
    /// A group, which is not supported.
    Group,
    /// An enum type that was named but not found.
    UnresolvedEnum(String),
    /// A message type that was named but not found.
    UnresolvedMessage(String),
}

impl FieldType {
    /// Whether values of this type are numbers that may come packed, many
    /// to one length-delimited run.
    pub open spec fn packable(self) -> bool {
        match self {
            FieldType::Bool
            | FieldType::Int32
            | FieldType::Int64
            | FieldType::SInt32
            | FieldType::SInt64
            | FieldType::UInt32
            | FieldType::UInt64
            | FieldType::Fixed32
            | FieldType::Fixed64
            | FieldType::SFixed32
            | FieldType::SFixed64
            | FieldType::Float
            | FieldType::Double => true,
            _ => false,
        }
    }

    /// Whether a value of this type is read by one call of the codec: a
    /// number, bytes, a text or an enum code.
    pub open spec fn scalar(self) -> bool {
        self.packable() || self is Bytes || self is String || self is Enum
    }

    /// Whether a value of this type can be read from the wire type
    /// `wire_type`, in a schema of `count` message types: a number from a
    /// packed run or with the wire type of its own, bytes, a text and a
    /// message of the schema from a length-delimited value, an enum code
    /// from a varint.
    pub fn accepts(&self, wire_type: WireType, count: usize) -> (b: bool)
        ensures
            b == crate::model::accepts(*self, wire_type, count as nat),
    {
        match self {
            FieldType::Bool
            | FieldType::Int32
            | FieldType::Int64
            | FieldType::SInt32
            | FieldType::SInt64
            | FieldType::UInt32
            | FieldType::UInt64 => wire_type == WireType::LengthDelimited || wire_type
                == WireType::Varint,
            FieldType::Fixed32 | FieldType::SFixed32 | FieldType::Float => wire_type
                == WireType::LengthDelimited || wire_type == WireType::Fixed32,
            FieldType::Fixed64 | FieldType::SFixed64 | FieldType::Double => wire_type
                == WireType::LengthDelimited || wire_type == WireType::Fixed64,
            FieldType::Bytes | FieldType::String => wire_type == WireType::LengthDelimited,
            FieldType::Enum => wire_type == WireType::Varint,
            FieldType::Message(index) => *index < count && wire_type
                == WireType::LengthDelimited,
            FieldType::Group => false,
            FieldType::UnresolvedEnum(_) => false,
            FieldType::UnresolvedMessage(_) => false,
        }
    }

    /// The wire type that one value of this type comes with when it is not
    /// packed.
    pub open spec fn wire_type(self) -> WireType {
        match self {
            FieldType::Fixed32 | FieldType::SFixed32 | FieldType::Float => WireType::Fixed32,
            FieldType::Fixed64 | FieldType::SFixed64 | FieldType::Double => WireType::Fixed64,
            FieldType::Bytes
            | FieldType::String
            | FieldType::Message(_)
            | FieldType::Group
            | FieldType::UnresolvedMessage(_) => WireType::LengthDelimited,
            _ => WireType::Varint,
        }
    }
}

/// One field of a message type.
#[derive(Clone, Debug)]
pub struct FieldDescriptor {
    /// The field number.
    pub number: i32,
    /// Whether the field holds a sequence of values rather than one.
    pub repeated: bool,
    /// The declared type.
    pub field_type: FieldType,
    /// The value that a singular field starts with, if the schema gives one.
    pub default_value: Option<Value>,
}

impl FieldDescriptor {
    /// The field number.
    pub fn number(&self) -> (n: i32)
        ensures
            n == self.number,
    {
        self.number
    }

    /// Whether the field is repeated.
    pub fn is_repeated(&self) -> (b: bool)
        ensures
            b == self.repeated,
    {
        self.repeated
    }

    /// The declared type.
    pub fn field_type(&self) -> (t: &FieldType)
        ensures
            *t == self.field_type,
    {
        &self.field_type
    }

    /// The declared default, if any.
    pub fn default_value(&self) -> (v: Option<&Value>)
        ensures
            v == match self.default_value {
                Some(d) => Some(&d),
                None => None,
            },
    {
        self.default_value.as_ref()
    }

    /// A field is well formed within a set of `count` message types when a
    /// tag can carry its number, a nested message type is one of the set,
    /// and its default, if it has one, is no message.
    pub open spec fn wf(self, count: nat) -> bool {
        &&& valid_number(self.number as int)
        &&& match self.field_type {
            FieldType::Message(index) => index < count,
            _ => true,
        }
        &&& !(self.default_value matches Some(Value::Message(_)))
    }

    /// Whether `wf` holds.
    pub fn is_well_formed(&self, count: usize) -> (b: bool)
        ensures
            b == self.wf(count as nat),
    {
        let in_range = 1 <= self.number && self.number <= 0x1fff_ffff;
        let resolved = match &self.field_type {
            FieldType::Message(index) => *index < count,
            _ => true,
        };
        let plain = match &self.default_value {
            Some(Value::Message(_)) => false,
            _ => true,
        };
        in_range && resolved && plain
    }
}

/// The first of `fields` with the number `number`.
pub open spec fn lookup(fields: Seq<FieldDescriptor>, number: i32) -> Option<FieldDescriptor>
    decreases fields.len(),
{
    if fields.len() == 0 {
        None
    } else if fields[0].number == number {
        Some(fields[0])
    } else {
        lookup(fields.drop_first(), number)
    }
}

/// A message type: its fields, in the order of their declaration.
#[derive(Clone, Debug)]
pub struct MessageDescriptor {
    pub fields: Vec<FieldDescriptor>,
}

impl MessageDescriptor {
    /// The fields, in the order of their declaration.
    pub fn fields(&self) -> (fields: &Vec<FieldDescriptor>)
        ensures
            *fields == self.fields,
    {
        &self.fields
    }

    /// The field with the number `number`: the first, should several have it.
    pub open spec fn field(self, number: i32) -> Option<FieldDescriptor> {
        lookup(self.fields@, number)
    }

    /// Looks a field up by its number.
    pub fn field_by_number(&self, number: i32) -> (found: Option<&FieldDescriptor>)
        ensures
            found == match self.field(number) {
                Some(field) => Some(&field),
                None => None,
            },
    {
        let mut i: usize = 0;
        assert(self.fields@.skip(0) == self.fields@);
        while i < self.fields.len()
            invariant
                i <= self.fields.len(),
                lookup(self.fields@, number) == lookup(self.fields@.skip(i as int), number),
            decreases self.fields.len() - i,
        {
            if self.fields[i].number == number {
                return Some(&self.fields[i]);
            }
            assert(self.fields@.skip(i as int).drop_first() == self.fields@.skip(i as int + 1));
            i = i + 1;
        }
        None
    }

    /// No two fields have one number.
    pub open spec fn distinct(self) -> bool {
        forall|i: int, j: int|
            0 <= i < j < self.fields@.len() ==> (#[trigger] self.fields@[i]).number != (
            #[trigger] self.fields@[j]).number
    }

    /// Every field is well formed within a set of `count` message types.
    pub open spec fn wf(self, count: nat) -> bool {
        forall|i: int| 0 <= i < self.fields@.len() ==> (#[trigger] self.fields@[i]).wf(count)
    }

    /// Whether `wf` holds.
    pub fn is_well_formed(&self, count: usize) -> (b: bool)
        ensures
            b == self.wf(count as nat),
    {
        let mut i: usize = 0;
        while i < self.fields.len()
            invariant
                i <= self.fields.len(),
                forall|j: int| 0 <= j < i ==> (#[trigger] self.fields@[j]).wf(count as nat),
            decreases self.fields.len() - i,
        {
            if !self.fields[i].is_well_formed(count) {
                return false;
            }
            i = i + 1;
        }
        true
    }
}

/// A set of message types that may refer to one another, and to themselves.
#[derive(Clone, Debug)]
pub struct Descriptors {
    pub messages: Vec<MessageDescriptor>,
}

impl Descriptors {
    /// No message type of the set has two fields of one number.
    pub open spec fn distinct(self) -> bool {
        forall|i: int| 0 <= i < self.messages@.len() ==> (#[trigger] self.messages@[i]).distinct()
    }

    /// Every message type of the set is well formed within it.
    pub open spec fn wf(self) -> bool {
        forall|i: int|
            0 <= i < self.messages@.len() ==> (#[trigger] self.messages@[i]).wf(
                self.messages@.len(),
            )
    }

    /// Whether `wf` holds.
    pub fn is_well_formed(&self) -> (b: bool)
        ensures
            b == self.wf(),
    {
        let count = self.messages.len();
        let mut i: usize = 0;
        while i < count
            invariant
                i <= count,
                count == self.messages.len(),
                forall|j: int| 0 <= j < i ==> (#[trigger] self.messages@[j]).wf(count as nat),
            decreases count - i,
        {
            if !self.messages[i].is_well_formed(count) {
                return false;
            }
            i = i + 1;
        }
        true
    }

    /// The message type of index `index`.
    pub fn message(&self, index: usize) -> (found: Option<&MessageDescriptor>)
        ensures
            found == if index < self.messages@.len() {
                Some(&self.messages@[index as int])
            } else {
                None
            },
    {
        if index < self.messages.len() {
            Some(&self.messages[index])
        } else {
            None
        }
    }
}

} // verus!
