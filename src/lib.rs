//! Serialization of compile-time constants into the key-addressed 32-byte
//! storage slots of a contract's initial storage image.
//!
//! The layout produced here is a wire format: keys are derived from a state
//! index and a path of subfield offsets, values are packed word by word, and
//! both must agree with the address arithmetic that reads and writes storage
//! at run time.
pub mod bytes;
pub mod ir;
pub mod key;
pub mod slots;
pub mod type_size;
pub mod words;

pub use bytes::add_to_b256;
pub use ir::{Constant, ConstantValue, InByte8Padding, StateIndex, StorageSlot, Type, TypeContent};
pub use key::{get_storage_key, storage_key_preimage};
pub use slots::{is_storable, serialize_to_storage_slots};
pub use type_size::size_in_words;
pub use words::{is_array_free, is_encodable, serialize_to_words};
