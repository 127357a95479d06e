//! What can go wrong while a message is decoded or encoded.
use vstd::prelude::*;
use crate::wire::WireType;
use protobuf::ProtobufError;

verus! {

/// The reason why a decode or an encode was given up.
#[derive(Debug)]
pub enum Error {
    /// The wire type that came with a field is none that its declared type
    /// can be read from.
    BadWireType { wire_type: WireType },
    /// The schema refers to an enum type that it does not hold.
    UnknownEnum { name: String },
    /// The schema refers to a message type that it does not hold.
    UnknownMessage { name: String },
    /// The field is declared as a group, which is not supported.
    UnsupportedGroup,
    /// The encoding of a message, or a length within it, does not fit the 32
    /// bits that the wire format gives to a length.
    TooLarge,
    /// The bytes are not well formed: a varint or a tag is malformed, the
    /// bytes end inside a value, or a text is not UTF-8. The error is the one
    /// that the `protobuf` crate reported.
    Protobuf(ProtobufError),
}

/// An error without the memory that holds it.
pub ghost enum Fault {
    BadWireType(WireType),
    UnknownEnum(Seq<char>),
    UnknownMessage(Seq<char>),
    UnsupportedGroup,
    TooLarge,
    /// The bytes are not well formed.
    Malformed,
}

impl View for Error {
    type V = Fault;

    open spec fn view(&self) -> Fault {
        match self {
            Error::BadWireType { wire_type } => Fault::BadWireType(*wire_type),
            Error::UnknownEnum { name } => Fault::UnknownEnum(name@),
            Error::UnknownMessage { name } => Fault::UnknownMessage(name@),
            Error::UnsupportedGroup => Fault::UnsupportedGroup,
            Error::TooLarge => Fault::TooLarge,
            Error::Protobuf(_) => Fault::Malformed,
        }
    }
}

} // verus!
