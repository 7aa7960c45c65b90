//! The errors that validation and field access report.

use vstd::prelude::*;

verus! {

/// Why a buffer was rejected, or why a field could not be read or written.
#[derive(Debug, Clone, Copy, PartialEq, Eq, Structural)]
#[allow(inconsistent_fields)]
pub enum SerializationError {
    /// The buffer does not start with the format's magic number.
    InvalidMagic { expected: u32, found: u32 },
    /// The header names a version that this library does not read.
    UnsupportedVersion { version: u32 },
    /// The offset table has no entry with this id.
    FieldNotFound { field_id: u32 },
    /// The entry's type tag or size does not fit the access.
    FieldSizeMismatch { expected: usize, got: usize },
    /// The buffer is shorter than the header, or than the size the header declares.
    BufferTooSmall { needed: usize, have: usize },
    /// The field's bytes would lie outside the buffer.
    InvalidOffset { offset: usize, size: usize },
}

} // verus!
