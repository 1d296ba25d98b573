//! A codec for VelocyPack, a self-describing, type-tagged binary encoding of
//! JSON-like values, with every function proved against its contract.
pub mod de;
pub mod de_spec;
pub mod error;
pub mod format;
pub mod order;
pub mod round_trip;
pub mod ser;
pub mod value;
pub mod varint;

pub use de::{first_from_bytes, from_bytes, Deserializer};
pub use error::Error;
pub use format::{push_bytes, push_le, read_le};
pub use ser::{is_encodable, to_bytes, ArraySerializer, MapSerializer, Serializer};
pub use value::{Value, ValueView};
pub use varint::{push_reverse_varint, push_varint, read_forward_varint, read_reverse_varint};
