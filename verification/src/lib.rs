//! A fixed-schema binary record format with zero-copy reads and bounded
//! in-place field updates.
//!
//! A buffer holds a header of 80 bytes, an offset table of 12-byte entries,
//! a section of fixed-width fields and a section of strings and blobs. All
//! numbers are little-endian, so a buffer reads the same on every host.
//!
//! - `codec`: the little-endian encoding of integers, and the `Scalar` types.
//! - `format`: the header, the offset entries and the table lookup.
//! - `model`: what validation, a read and a write mean, over byte sequences.
//! - `serializer`: the builder and the two views, which compute the model.
//! - `laws`: what building, reading and writing have to do with each other.

pub mod codec;
pub mod error;
pub mod format;
pub mod laws;
pub mod model;
pub mod serializer;

pub use codec::Scalar;
pub use error::SerializationError;
pub use format::{FieldType, FormatHeader, OffsetEntry};
pub use serializer::{BinarySerializer, BinaryView, BinaryViewMut};
