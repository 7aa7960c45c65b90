//! What reading and writing a field mean, over byte sequences.
//!
//! The views compute these functions. Each one takes the buffer's bytes and
//! the header that the view was made with, and gives either the bytes that a
//! read returns, or the buffer after a write, or the error.

use crate::error::SerializationError;
use crate::format::{
    clamp_usize, lookup, table_entries, FieldType, FormatHeader, OffsetEntry, HEADER_SIZE,
};
use vstd::prelude::*;
use vstd::utf8::valid_utf8;

verus! {

/// What validation says of a buffer: its header, or why it is rejected.
pub open spec fn check_buffer(bytes: Seq<u8>) -> Result<FormatHeader, SerializationError> {
    if bytes.len() < HEADER_SIZE {
        Err(
            SerializationError::BufferTooSmall {
                needed: HEADER_SIZE,
                have: clamp_usize(bytes.len() as int),
            },
        )
    } else {
        let header = FormatHeader::spec_decode(bytes);
        match header.spec_validate() {
            Err(e) => Err(e),
            Ok(_) => if bytes.len() < header.spec_total_size() {
                Err(
                    SerializationError::BufferTooSmall {
                        needed: clamp_usize(header.spec_total_size()),
                        have: clamp_usize(bytes.len() as int),
                    },
                )
            } else {
                Ok(header)
            },
        }
    }
}

/// The offset table of a buffer with the given header.
pub open spec fn entries_of(bytes: Seq<u8>, header: FormatHeader) -> Seq<OffsetEntry> {
    table_entries(bytes, header.header_size as int, header.offset_table_size as int)
}

/// The error for a span that ends at `end` in a buffer of `len` bytes.
pub open spec fn invalid_offset(end: int, len: nat) -> SerializationError {
    SerializationError::InvalidOffset { offset: clamp_usize(end), size: clamp_usize(len as int) }
}

/// The error for an entry whose tag is not the one that the access is for.
pub open spec fn wrong_tag(wanted: FieldType, entry: OffsetEntry) -> SerializationError {
    SerializationError::FieldSizeMismatch {
        expected: wanted.spec_tag() as usize,
        got: entry.field_type as usize,
    }
}

/// `n` zero bytes.
pub open spec fn zeros(n: int) -> Seq<u8> {
    Seq::new(n as nat, |i: int| 0u8)
}

/// `bytes` with `value` written over it from index `at`.
pub open spec fn splice(bytes: Seq<u8>, at: int, value: Seq<u8>) -> Seq<u8> {
    bytes.subrange(0, at) + value + bytes.subrange(at + value.len(), bytes.len() as int)
}

/// Where a scan from `from` stops: at the first NUL byte, or at the end.
pub open spec fn scan_end(bytes: Seq<u8>, from: int) -> int
    decreases bytes.len() - from,
{
    if from < 0 || from >= bytes.len() || bytes[from] == 0 {
        from
    } else {
        scan_end(bytes, from + 1)
    }
}

/// The `width` bytes of the fixed field `field_id`.
pub open spec fn read_field(bytes: Seq<u8>, header: FormatHeader, field_id: u32, width: nat)
    -> Result<Seq<u8>, SerializationError> {
    match lookup(entries_of(bytes, header), field_id) {
        None => Err(SerializationError::FieldNotFound { field_id }),
        Some(entry) => {
            let start = header.spec_data_section_offset() + entry.offset;
            let end = start + width;
            if end > bytes.len() {
                Err(invalid_offset(end, bytes.len()))
            } else {
                Ok(bytes.subrange(start, end))
            }
        },
    }
}

/// The bytes of the string field `field_id`: from its offset up to the
/// first NUL byte or the end of the buffer, if they are valid UTF-8.
pub open spec fn read_string(bytes: Seq<u8>, header: FormatHeader, field_id: u32) -> Result<
    Seq<u8>,
    SerializationError,
> {
    match lookup(entries_of(bytes, header), field_id) {
        None => Err(SerializationError::FieldNotFound { field_id }),
        Some(entry) => {
            let start = header.spec_var_section_offset() + entry.offset;
            let text = bytes.subrange(start, scan_end(bytes, start));
            if entry.field_type != FieldType::String.spec_tag() {
                Err(wrong_tag(FieldType::String, entry))
            } else if start > bytes.len() {
                Err(invalid_offset(start, bytes.len()))
            } else if !valid_utf8(text) {
                Err(SerializationError::FieldSizeMismatch { expected: 0, got: 0 })
            } else {
                Ok(text)
            }
        },
    }
}

/// The bytes of the blob field `field_id`: the whole span that its entry
/// reserves.
pub open spec fn read_blob(bytes: Seq<u8>, header: FormatHeader, field_id: u32) -> Result<
    Seq<u8>,
    SerializationError,
> {
    match lookup(entries_of(bytes, header), field_id) {
        None => Err(SerializationError::FieldNotFound { field_id }),
        Some(entry) => {
            let start = header.spec_var_section_offset() + entry.offset;
            let end = start + entry.size;
            if entry.field_type != FieldType::Blob.spec_tag() {
                Err(wrong_tag(FieldType::Blob, entry))
            } else if end > bytes.len() {
                Err(invalid_offset(end, bytes.len()))
            } else {
                Ok(bytes.subrange(start, end))
            }
        },
    }
}

/// The buffer after `value` was written over the fixed field `field_id`.
pub open spec fn write_field(
    bytes: Seq<u8>,
    header: FormatHeader,
    field_id: u32,
    value: Seq<u8>,
) -> Result<Seq<u8>, SerializationError> {
    match lookup(entries_of(bytes, header), field_id) {
        None => Err(SerializationError::FieldNotFound { field_id }),
        Some(entry) => {
            let start = header.spec_data_section_offset() + entry.offset;
            let end = start + value.len();
            if value.len() != entry.size {
                Err(
                    SerializationError::FieldSizeMismatch {
                        expected: entry.size as usize,
                        got: clamp_usize(value.len() as int),
                    },
                )
            } else if end > bytes.len() {
                Err(invalid_offset(end, bytes.len()))
            } else {
                Ok(splice(bytes, start, value))
            }
        },
    }
}

/// The buffer after the string field `field_id` was set to the text whose
/// UTF-8 bytes are `value`: the reserved span holds `value`, then zeros.
pub open spec fn write_string(
    bytes: Seq<u8>,
    header: FormatHeader,
    field_id: u32,
    value: Seq<u8>,
) -> Result<Seq<u8>, SerializationError> {
    match lookup(entries_of(bytes, header), field_id) {
        None => Err(SerializationError::FieldNotFound { field_id }),
        Some(entry) => {
            let start = header.spec_var_section_offset() + entry.offset;
            let end = start + entry.size;
            if entry.field_type != FieldType::String.spec_tag() {
                Err(wrong_tag(FieldType::String, entry))
            } else if value.len() + 1 > entry.size {
                Err(
                    SerializationError::FieldSizeMismatch {
                        expected: entry.size as usize,
                        got: clamp_usize((value.len() + 1) as int),
                    },
                )
            } else if end > bytes.len() {
                Err(invalid_offset(end, bytes.len()))
            } else {
                Ok(splice(bytes, start, value + zeros(entry.size - value.len())))
            }
        },
    }
}

/// The buffer after the blob field `field_id` was set to `value`: the
/// reserved span holds `value`, then zeros.
pub open spec fn write_blob(
    bytes: Seq<u8>,
    header: FormatHeader,
    field_id: u32,
    value: Seq<u8>,
) -> Result<Seq<u8>, SerializationError> {
    match lookup(entries_of(bytes, header), field_id) {
        None => Err(SerializationError::FieldNotFound { field_id }),
        Some(entry) => {
            let start = header.spec_var_section_offset() + entry.offset;
            let end = start + entry.size;
            if entry.field_type != FieldType::Blob.spec_tag() {
                Err(wrong_tag(FieldType::Blob, entry))
            } else if value.len() > entry.size {
                Err(
                    SerializationError::FieldSizeMismatch {
                        expected: entry.size as usize,
                        got: clamp_usize(value.len() as int),
                    },
                )
            } else if end > bytes.len() {
                Err(invalid_offset(end, bytes.len()))
            } else {
                Ok(splice(bytes, start, value + zeros(entry.size - value.len())))
            }
        },
    }
}

} // verus!
