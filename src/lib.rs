//! mayfig: a configuration text format, decoded by requests of its consumer
//! and encoded from the calls of its producer.

pub mod access;
pub mod de;
pub mod entry;
pub mod error;
pub mod key;
pub mod laws;
pub mod nested;
pub mod read;
pub mod ser;
pub mod tagged;
pub mod value;

pub use de::Deserializer;
pub use error::Error;
pub use ser::Serializer;
pub use value::Value;
