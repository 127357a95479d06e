//! Messages whose schema is known only at run time.
//!
//! A [`value::Message`] is made from a [`descriptor::MessageDescriptor`],
//! decoded from the binary wire format with [`value::Message::merge_from`]
//! and encoded to it with [`value::Message::write_to`]. The calls into the
//! `protobuf` crate that read and write the primitives of the format are in
//! [`codec`]; everything else is verified against the model in [`model`] and
//! the format in [`wire`]. The laws that relate encoding and decoding are in
//! [`laws`] and [`round_trip`].
pub mod codec;
pub mod descriptor;
pub mod error;
pub mod input;
pub mod laws;
pub mod model;
pub mod order;
pub mod round_trip;
pub mod value;
pub mod wire;

pub use descriptor::{Descriptors, FieldDescriptor, FieldType, MessageDescriptor};
pub use error::Error;
pub use input::Input;
pub use value::{Field, Message, Value};
pub use wire::WireType;
