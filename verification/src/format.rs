//! Header and offset-table layout.
//!
//! A buffer is a header of 80 bytes, an offset table of 12-byte entries, the
//! fixed-data section and the variable-data section, in this order. All
//! numbers are little-endian.

use crate::codec::{
    append_le, le_bytes, le_value, lemma_le_bytes_len, lemma_le_value_of_bytes,
    lemma_radix_pow_values, read_le,
};
use crate::error::SerializationError;
use vstd::prelude::*;

verus! {

/// Format identifier stored in the first four bytes of every buffer ("BISE").
pub const MAGIC: u32 = 0x42495345;

/// The only format version this library reads and writes.
pub const VERSION: u32 = 1;

/// Size in bytes of the encoded header.
pub const HEADER_SIZE: usize = 80;

/// Size in bytes of one encoded offset-table entry.
pub const ENTRY_SIZE: usize = 12;

/// `n` as a `usize`, or `usize::MAX` where it does not fit: how a size or an
/// offset appears in an error.
pub open spec fn clamp_usize(n: int) -> usize {
    if n > usize::MAX {
        usize::MAX
    } else {
        n as usize
    }
}

/// Computes `clamp_usize`.
pub fn clamp_to_usize(n: u128) -> (r: usize)
    ensures
        r == clamp_usize(n as int),
{
    if n > usize::MAX as u128 {
        usize::MAX
    } else {
        n as usize
    }
}

/// What a field holds. The tag of each type is its number in the format.
#[derive(Debug, Clone, Copy, PartialEq, Eq, Structural)]
pub enum FieldType {
    Int8,
    Int16,
    Int32,
    Int64,
    Uint8,
    Uint16,
    Uint32,
    Uint64,
    Float32,
    Float64,
    Bool,
    /// Variable length, ended by a NUL byte inside its reserved span.
    String,
    /// Variable-length binary data that fills its reserved span.
    Blob,
}

impl FieldType {
    /// The number that stands for this type in an offset entry.
    pub open spec fn spec_tag(self) -> u16 {
        match self {
            FieldType::Int8 => 1,
            FieldType::Int16 => 2,
            FieldType::Int32 => 3,
            FieldType::Int64 => 4,
            FieldType::Uint8 => 5,
            FieldType::Uint16 => 6,
            FieldType::Uint32 => 7,
            FieldType::Uint64 => 8,
            FieldType::Float32 => 9,
            FieldType::Float64 => 10,
            FieldType::Bool => 11,
            FieldType::String => 12,
            FieldType::Blob => 13,
        }
    }

    /// The type that `tag` stands for, if it stands for one.
    pub open spec fn spec_from_tag(tag: u16) -> Option<FieldType> {
        if tag == 1 {
            Some(FieldType::Int8)
        } else if tag == 2 {
            Some(FieldType::Int16)
        } else if tag == 3 {
            Some(FieldType::Int32)
        } else if tag == 4 {
            Some(FieldType::Int64)
        } else if tag == 5 {
            Some(FieldType::Uint8)
        } else if tag == 6 {
            Some(FieldType::Uint16)
        } else if tag == 7 {
            Some(FieldType::Uint32)
        } else if tag == 8 {
            Some(FieldType::Uint64)
        } else if tag == 9 {
            Some(FieldType::Float32)
        } else if tag == 10 {
            Some(FieldType::Float64)
        } else if tag == 11 {
            Some(FieldType::Bool)
        } else if tag == 12 {
            Some(FieldType::String)
        } else if tag == 13 {
            Some(FieldType::Blob)
        } else {
            None
        }
    }

    /// The number that stands for this type in an offset entry.
    #[verifier::when_used_as_spec(spec_tag)]
    pub fn tag(self) -> (tag: u16)
        ensures
            tag == self.spec_tag(),
    {
        match self {
            FieldType::Int8 => 1,
            FieldType::Int16 => 2,
            FieldType::Int32 => 3,
            FieldType::Int64 => 4,
            FieldType::Uint8 => 5,
            FieldType::Uint16 => 6,
            FieldType::Uint32 => 7,
            FieldType::Uint64 => 8,
            FieldType::Float32 => 9,
            FieldType::Float64 => 10,
            FieldType::Bool => 11,
            FieldType::String => 12,
            FieldType::Blob => 13,
        }
    }

    /// The type that `tag` stands for, or `None` for a number outside 1..=13.
    pub fn from_tag(tag: u16) -> (field_type: Option<FieldType>)
        ensures
            field_type == Self::spec_from_tag(tag),
    {
        match tag {
            1 => Some(FieldType::Int8),
            2 => Some(FieldType::Int16),
            3 => Some(FieldType::Int32),
            4 => Some(FieldType::Int64),
            5 => Some(FieldType::Uint8),
            6 => Some(FieldType::Uint16),
            7 => Some(FieldType::Uint32),
            8 => Some(FieldType::Uint64),
            9 => Some(FieldType::Float32),
            10 => Some(FieldType::Float64),
            11 => Some(FieldType::Bool),
            12 => Some(FieldType::String),
            13 => Some(FieldType::Blob),
            _ => None,
        }
    }

    /// Tags and types correspond one to one.
    pub proof fn lemma_tag_from_tag(field_type: FieldType, tag: u16)
        ensures
            Self::spec_from_tag(field_type.spec_tag()) == Some(field_type),
            Self::spec_from_tag(tag) == Some(field_type) ==> field_type.spec_tag() == tag,
            1 <= field_type.spec_tag() <= 13,
    {
    }
}

/// The preamble of a buffer: what it is, and how large its sections are.
#[derive(Debug, Clone, Copy, PartialEq, Eq)]
pub struct FormatHeader {
    /// Format identifier: `MAGIC` in every valid buffer.
    pub magic: u32,
    /// Format version: `VERSION` in every valid buffer.
    pub version: u32,
    /// Size of the header: where the offset table starts.
    pub header_size: u32,
    /// Size of the offset table in bytes.
    pub offset_table_size: u32,
    /// Size of the fixed-data section in bytes.
    pub data_size: u32,
    /// Size of the variable-data section in bytes.
    pub var_size: u32,
    /// Kept for an integrity check; neither computed nor verified.
    pub checksum: u64,
    /// Kept for later versions.
    pub reserved: [u64; 6],
}

impl FormatHeader {
    /// The 80 bytes that stand for this header.
    pub open spec fn spec_encode(self) -> Seq<u8> {
        le_bytes(self.magic as nat, 4) + le_bytes(self.version as nat, 4) + le_bytes(
            self.header_size as nat,
            4,
        ) + le_bytes(self.offset_table_size as nat, 4) + le_bytes(self.data_size as nat, 4)
            + le_bytes(self.var_size as nat, 4) + le_bytes(self.checksum as nat, 8) + le_bytes(
            self.reserved[0] as nat,
            8,
        ) + le_bytes(self.reserved[1] as nat, 8) + le_bytes(self.reserved[2] as nat, 8)
            + le_bytes(self.reserved[3] as nat, 8) + le_bytes(self.reserved[4] as nat, 8)
            + le_bytes(self.reserved[5] as nat, 8)
    }

    /// The header that the first 80 bytes of `bytes` stand for.
    pub open spec fn spec_decode(bytes: Seq<u8>) -> FormatHeader {
        FormatHeader {
            magic: le_value(bytes.subrange(0, 4)) as u32,
            version: le_value(bytes.subrange(4, 8)) as u32,
            header_size: le_value(bytes.subrange(8, 12)) as u32,
            offset_table_size: le_value(bytes.subrange(12, 16)) as u32,
            data_size: le_value(bytes.subrange(16, 20)) as u32,
            var_size: le_value(bytes.subrange(20, 24)) as u32,
            checksum: le_value(bytes.subrange(24, 32)) as u64,
            reserved: [
                le_value(bytes.subrange(32, 40)) as u64,
                le_value(bytes.subrange(40, 48)) as u64,
                le_value(bytes.subrange(48, 56)) as u64,
                le_value(bytes.subrange(56, 64)) as u64,
                le_value(bytes.subrange(64, 72)) as u64,
                le_value(bytes.subrange(72, 80)) as u64,
            ],
        }
    }

    /// `Ok` for a header with the format's magic number and version, else
    /// the error that names the first of the two that is wrong.
    pub open spec fn spec_validate(self) -> Result<(), SerializationError> {
        if self.magic != MAGIC {
            Err(SerializationError::InvalidMagic { expected: MAGIC, found: self.magic })
        } else if self.version != VERSION {
            Err(SerializationError::UnsupportedVersion { version: self.version })
        } else {
            Ok(())
        }
    }

    /// The size of a buffer with this header: all four sections together.
    pub open spec fn spec_total_size(self) -> int {
        self.header_size + self.offset_table_size + self.data_size + self.var_size
    }

    /// Where the fixed-data section starts.
    pub open spec fn spec_data_section_offset(self) -> int {
        self.header_size + self.offset_table_size
    }

    /// Where the variable-data section starts.
    pub open spec fn spec_var_section_offset(self) -> int {
        self.spec_data_section_offset() + self.data_size
    }

    /// A header of the current version for sections of the given sizes.
    pub fn new(offset_table_size: u32, data_size: u32, var_size: u32) -> (header: Self)
        ensures
            header.magic == MAGIC,
            header.version == VERSION,
            header.header_size == HEADER_SIZE,
            header.offset_table_size == offset_table_size,
            header.data_size == data_size,
            header.var_size == var_size,
            header.checksum == 0,
            forall|i: int| 0 <= i < 6 ==> header.reserved[i] == 0,
    {
        FormatHeader {
            magic: MAGIC,
            version: VERSION,
            header_size: 80,
            offset_table_size,
            data_size,
            var_size,
            checksum: 0,
            reserved: [0, 0, 0, 0, 0, 0],
        }
    }

    /// Checks the magic number, then the version. No other field is looked at.
    pub fn validate(&self) -> (r: Result<(), SerializationError>)
        ensures
            r == self.spec_validate(),
    {
        if self.magic != MAGIC {
            return Err(SerializationError::InvalidMagic { expected: MAGIC, found: self.magic });
        }
        if self.version != VERSION {
            return Err(SerializationError::UnsupportedVersion { version: self.version });
        }
        Ok(())
    }

    /// The size of a buffer with this header, in a type that holds every sum
    /// of four `u32`.
    pub fn total_size_wide(&self) -> (size: u64)
        ensures
            size == self.spec_total_size(),
    {
        self.header_size as u64 + self.offset_table_size as u64 + self.data_size as u64
            + self.var_size as u64
    }

    /// The size of a buffer with this header.
    pub fn total_size(&self) -> (size: usize)
        requires
            self.spec_total_size() <= usize::MAX,
        ensures
            size == self.spec_total_size(),
    {
        self.header_size as usize + self.offset_table_size as usize + self.data_size as usize
            + self.var_size as usize
    }

    /// Where the fixed-data section starts.
    pub fn data_section_offset(&self) -> (offset: usize)
        requires
            self.spec_data_section_offset() <= usize::MAX,
        ensures
            offset == self.spec_data_section_offset(),
    {
        self.header_size as usize + self.offset_table_size as usize
    }

    /// Where the variable-data section starts.
    pub fn var_section_offset(&self) -> (offset: usize)
        requires
            self.spec_var_section_offset() <= usize::MAX,
        ensures
            offset == self.spec_var_section_offset(),
    {
        self.data_section_offset() + self.data_size as usize
    }

    /// Appends the 80 bytes of this header to `out`.
    pub fn encode_into(&self, out: &mut Vec<u8>)
        ensures
            final(out)@ == old(out)@ + self.spec_encode(),
    {
        let ghost start = old(out)@;
        append_le(out, self.magic as u64, 4);
        append_le(out, self.version as u64, 4);
        append_le(out, self.header_size as u64, 4);
        append_le(out, self.offset_table_size as u64, 4);
        append_le(out, self.data_size as u64, 4);
        append_le(out, self.var_size as u64, 4);
        append_le(out, self.checksum, 8);
        append_le(out, self.reserved[0], 8);
        append_le(out, self.reserved[1], 8);
        append_le(out, self.reserved[2], 8);
        append_le(out, self.reserved[3], 8);
        append_le(out, self.reserved[4], 8);
        append_le(out, self.reserved[5], 8);
        assert(out@ =~= start + self.spec_encode());
    }

    /// Reads the header that the first 80 bytes of `bytes` stand for.
    pub fn decode(bytes: &[u8]) -> (header: Self)
        requires
            bytes@.len() >= HEADER_SIZE,
        ensures
            header == Self::spec_decode(bytes@),
    {
        proof {
            lemma_radix_pow_values();
        }
        let header = FormatHeader {
            magic: read_le(bytes, 0, 4) as u32,
            version: read_le(bytes, 4, 4) as u32,
            header_size: read_le(bytes, 8, 4) as u32,
            offset_table_size: read_le(bytes, 12, 4) as u32,
            data_size: read_le(bytes, 16, 4) as u32,
            var_size: read_le(bytes, 20, 4) as u32,
            checksum: read_le(bytes, 24, 8),
            reserved: [
                read_le(bytes, 32, 8),
                read_le(bytes, 40, 8),
                read_le(bytes, 48, 8),
                read_le(bytes, 56, 8),
                read_le(bytes, 64, 8),
                read_le(bytes, 72, 8),
            ],
        };
        assert(header.reserved =~= Self::spec_decode(bytes@).reserved);
        header
    }

    /// An encoded header has 80 bytes, and decoding it gives the header back,
    /// whatever follows it in the buffer.
    pub proof fn lemma_decode_encode(self, rest: Seq<u8>)
        ensures
            self.spec_encode().len() == HEADER_SIZE,
            Self::spec_decode(self.spec_encode() + rest) == self,
    {
        lemma_radix_pow_values();
        lemma_le_bytes_len(self.magic as nat, 4);
        lemma_le_bytes_len(self.version as nat, 4);
        lemma_le_bytes_len(self.header_size as nat, 4);
        lemma_le_bytes_len(self.offset_table_size as nat, 4);
        lemma_le_bytes_len(self.data_size as nat, 4);
        lemma_le_bytes_len(self.var_size as nat, 4);
        lemma_le_bytes_len(self.checksum as nat, 8);
        lemma_le_bytes_len(self.reserved[0] as nat, 8);
        lemma_le_bytes_len(self.reserved[1] as nat, 8);
        lemma_le_bytes_len(self.reserved[2] as nat, 8);
        lemma_le_bytes_len(self.reserved[3] as nat, 8);
        lemma_le_bytes_len(self.reserved[4] as nat, 8);
        lemma_le_bytes_len(self.reserved[5] as nat, 8);
        lemma_le_value_of_bytes(self.magic as nat, 4);
        lemma_le_value_of_bytes(self.version as nat, 4);
        lemma_le_value_of_bytes(self.header_size as nat, 4);
        lemma_le_value_of_bytes(self.offset_table_size as nat, 4);
        lemma_le_value_of_bytes(self.data_size as nat, 4);
        lemma_le_value_of_bytes(self.var_size as nat, 4);
        lemma_le_value_of_bytes(self.checksum as nat, 8);
        lemma_le_value_of_bytes(self.reserved[0] as nat, 8);
        lemma_le_value_of_bytes(self.reserved[1] as nat, 8);
        lemma_le_value_of_bytes(self.reserved[2] as nat, 8);
        lemma_le_value_of_bytes(self.reserved[3] as nat, 8);
        lemma_le_value_of_bytes(self.reserved[4] as nat, 8);
        lemma_le_value_of_bytes(self.reserved[5] as nat, 8);
        let bytes = self.spec_encode() + rest;
        assert(bytes.subrange(0, 4) =~= le_bytes(self.magic as nat, 4));
        assert(bytes.subrange(4, 8) =~= le_bytes(self.version as nat, 4));
        assert(bytes.subrange(8, 12) =~= le_bytes(self.header_size as nat, 4));
        assert(bytes.subrange(12, 16) =~= le_bytes(self.offset_table_size as nat, 4));
        assert(bytes.subrange(16, 20) =~= le_bytes(self.data_size as nat, 4));
        assert(bytes.subrange(20, 24) =~= le_bytes(self.var_size as nat, 4));
        assert(bytes.subrange(24, 32) =~= le_bytes(self.checksum as nat, 8));
        assert(bytes.subrange(32, 40) =~= le_bytes(self.reserved[0] as nat, 8));
        assert(bytes.subrange(40, 48) =~= le_bytes(self.reserved[1] as nat, 8));
        assert(bytes.subrange(48, 56) =~= le_bytes(self.reserved[2] as nat, 8));
        assert(bytes.subrange(56, 64) =~= le_bytes(self.reserved[3] as nat, 8));
        assert(bytes.subrange(64, 72) =~= le_bytes(self.reserved[4] as nat, 8));
        assert(bytes.subrange(72, 80) =~= le_bytes(self.reserved[5] as nat, 8));
        let decoded = Self::spec_decode(bytes);
        assert(decoded.reserved =~= self.reserved);
    }
}

/// One row of the offset table: where a field lies, and what it holds.
#[derive(Debug, Clone, Copy, PartialEq, Eq, Structural)]
pub struct OffsetEntry {
    /// The id by which the field is looked up.
    pub field_id: u32,
    /// Where the field starts, counted from the start of its section.
    pub offset: u32,
    /// The tag of the field's type.
    pub field_type: u16,
    /// The width of a fixed field, or the span reserved for a string or blob.
    pub size: u16,
}

impl OffsetEntry {
    /// The 12 bytes that stand for this entry.
    pub open spec fn spec_encode(self) -> Seq<u8> {
        le_bytes(self.field_id as nat, 4) + le_bytes(self.offset as nat, 4) + le_bytes(
            self.field_type as nat,
            2,
        ) + le_bytes(self.size as nat, 2)
    }

    /// The entry that the first 12 bytes of `bytes` stand for.
    pub open spec fn spec_decode(bytes: Seq<u8>) -> OffsetEntry {
        OffsetEntry {
            field_id: le_value(bytes.subrange(0, 4)) as u32,
            offset: le_value(bytes.subrange(4, 8)) as u32,
            field_type: le_value(bytes.subrange(8, 10)) as u16,
            size: le_value(bytes.subrange(10, 12)) as u16,
        }
    }

    /// Appends the 12 bytes of this entry to `out`.
    pub fn encode_into(&self, out: &mut Vec<u8>)
        ensures
            final(out)@ == old(out)@ + self.spec_encode(),
    {
        let ghost start = old(out)@;
        append_le(out, self.field_id as u64, 4);
        append_le(out, self.offset as u64, 4);
        append_le(out, self.field_type as u64, 2);
        append_le(out, self.size as u64, 2);
        assert(out@ =~= start + self.spec_encode());
    }

    /// Reads the entry that the 12 bytes of `bytes` from `at` stand for.
    pub fn decode(bytes: &[u8], at: usize) -> (entry: Self)
        requires
            at + ENTRY_SIZE <= bytes@.len(),
        ensures
            entry == Self::spec_decode(bytes@.subrange(at as int, at + ENTRY_SIZE)),
    {
        proof {
            lemma_radix_pow_values();
            let part = bytes@.subrange(at as int, at + ENTRY_SIZE);
            assert(part.subrange(0, 4) =~= bytes@.subrange(at as int, at + 4));
            assert(part.subrange(4, 8) =~= bytes@.subrange(at + 4, at + 8));
            assert(part.subrange(8, 10) =~= bytes@.subrange(at + 8, at + 10));
            assert(part.subrange(10, 12) =~= bytes@.subrange(at + 10, at + 12));
        }
        assert(bytes@.len() == bytes.len());
        OffsetEntry {
            field_id: read_le(bytes, at, 4) as u32,
            offset: read_le(bytes, at + 4, 4) as u32,
            field_type: read_le(bytes, at + 8, 2) as u16,
            size: read_le(bytes, at + 10, 2) as u16,
        }
    }

    /// An encoded entry has 12 bytes, and decoding it gives the entry back.
    pub proof fn lemma_decode_encode(self)
        ensures
            self.spec_encode().len() == ENTRY_SIZE,
            Self::spec_decode(self.spec_encode()) == self,
    {
        lemma_radix_pow_values();
        lemma_le_bytes_len(self.field_id as nat, 4);
        lemma_le_bytes_len(self.offset as nat, 4);
        lemma_le_bytes_len(self.field_type as nat, 2);
        lemma_le_bytes_len(self.size as nat, 2);
        lemma_le_value_of_bytes(self.field_id as nat, 4);
        lemma_le_value_of_bytes(self.offset as nat, 4);
        lemma_le_value_of_bytes(self.field_type as nat, 2);
        lemma_le_value_of_bytes(self.size as nat, 2);
        let bytes = self.spec_encode();
        assert(bytes.subrange(0, 4) =~= le_bytes(self.field_id as nat, 4));
        assert(bytes.subrange(4, 8) =~= le_bytes(self.offset as nat, 4));
        assert(bytes.subrange(8, 10) =~= le_bytes(self.field_type as nat, 2));
        assert(bytes.subrange(10, 12) =~= le_bytes(self.size as nat, 2));
    }
}

/// The bytes of an offset table: its entries' encodings, one after another.
pub open spec fn encode_table(entries: Seq<OffsetEntry>) -> Seq<u8>
    decreases entries.len(),
{
    if entries.len() == 0 {
        Seq::empty()
    } else {
        encode_table(entries.drop_last()) + entries.last().spec_encode()
    }
}

/// Entry number `i` of the table that starts at `start` in `bytes`.
pub open spec fn entry_at(bytes: Seq<u8>, start: int, i: int) -> OffsetEntry {
    OffsetEntry::spec_decode(
        bytes.subrange(start + ENTRY_SIZE * i, start + ENTRY_SIZE * i + ENTRY_SIZE),
    )
}

/// The entries of the table of `size` bytes that starts at `start` in
/// `bytes`, in table order. Bytes after the last whole entry are not read.
pub open spec fn table_entries(bytes: Seq<u8>, start: int, size: int) -> Seq<OffsetEntry> {
    Seq::new((size / (ENTRY_SIZE as int)) as nat, |i: int| entry_at(bytes, start, i))
}

/// The first entry with the given id, in table order.
pub open spec fn lookup(entries: Seq<OffsetEntry>, field_id: u32) -> Option<OffsetEntry>
    decreases entries.len(),
{
    if entries.len() == 0 {
        None
    } else if entries[0].field_id == field_id {
        Some(entries[0])
    } else {
        lookup(entries.drop_first(), field_id)
    }
}

/// `lookup` finds an entry exactly when one has the id, and then it is the
/// one with the least index.
pub proof fn lemma_lookup(entries: Seq<OffsetEntry>, field_id: u32)
    ensures
        (match lookup(entries, field_id) {
            Some(entry) => exists|i: int|
                0 <= i < entries.len() && entries[i] == entry && entry.field_id == field_id
                    && forall|j: int| 0 <= j < i ==> (#[trigger] entries[j]).field_id != field_id,
            None => forall|i: int|
                0 <= i < entries.len() ==> (#[trigger] entries[i]).field_id != field_id,
        }),
    decreases entries.len(),
{
    if entries.len() == 0 {
    } else if entries[0].field_id == field_id {
        assert(entries[0] == entries[0]);
    } else {
        let rest = entries.drop_first();
        lemma_lookup(rest, field_id);
        match lookup(rest, field_id) {
            Some(entry) => {
                let i = choose|i: int|
                    0 <= i < rest.len() && rest[i] == entry && entry.field_id == field_id
                        && forall|j: int| 0 <= j < i ==> (#[trigger] rest[j]).field_id != field_id;
                assert(entries[i + 1] == entry);
                assert forall|j: int| 0 <= j < i + 1 implies (#[trigger] entries[j]).field_id
                    != field_id by {
                    if j > 0 {
                        assert(entries[j] == rest[j - 1]);
                    }
                }
            },
            None => {
                assert forall|i: int| 0 <= i < entries.len() implies (#[trigger] entries[i]).field_id
                    != field_id by {
                    if i > 0 {
                        assert(entries[i] == rest[i - 1]);
                    }
                }
            },
        }
    }
}

/// An encoded table has 12 bytes for each entry.
pub proof fn lemma_encode_table_len(entries: Seq<OffsetEntry>)
    ensures
        encode_table(entries).len() == ENTRY_SIZE * entries.len(),
    decreases entries.len(),
{
    if entries.len() > 0 {
        lemma_encode_table_len(entries.drop_last());
        entries.last().lemma_decode_encode();
    }
}

/// Entry `i` of an encoded table lies at byte `12 * i`.
pub proof fn lemma_encode_table_entry(entries: Seq<OffsetEntry>, i: int)
    requires
        0 <= i < entries.len(),
    ensures
        encode_table(entries).len() == ENTRY_SIZE * entries.len(),
        encode_table(entries).subrange(ENTRY_SIZE * i, ENTRY_SIZE * i + ENTRY_SIZE)
            == entries[i].spec_encode(),
    decreases entries.len(),
{
    let front = entries.drop_last();
    lemma_encode_table_len(entries);
    lemma_encode_table_len(front);
    entries.last().lemma_decode_encode();
    if i == entries.len() - 1 {
        assert(encode_table(entries).subrange(ENTRY_SIZE * i, ENTRY_SIZE * i + ENTRY_SIZE)
            =~= entries[i].spec_encode());
    } else {
        lemma_encode_table_entry(front, i);
        assert(encode_table(entries).subrange(ENTRY_SIZE * i, ENTRY_SIZE * i + ENTRY_SIZE)
            =~= encode_table(front).subrange(ENTRY_SIZE * i, ENTRY_SIZE * i + ENTRY_SIZE));
    }
}

/// Reading the table out of a buffer that holds its encoding gives the
/// entries back, whatever stands before and after it.
pub proof fn lemma_table_decode_encode(
    before: Seq<u8>,
    entries: Seq<OffsetEntry>,
    after: Seq<u8>,
)
    ensures
        encode_table(entries).len() == ENTRY_SIZE * entries.len(),
        table_entries(
            before + encode_table(entries) + after,
            before.len() as int,
            ENTRY_SIZE * entries.len(),
        ) == entries,
{
    lemma_encode_table_len(entries);
    let bytes = before + encode_table(entries) + after;
    let start = before.len() as int;
    let read = table_entries(bytes, start, ENTRY_SIZE * entries.len());
    assert(read.len() == entries.len());
    assert forall|i: int| 0 <= i < entries.len() implies read[i] == entries[i] by {
        lemma_encode_table_entry(entries, i);
        entries[i].lemma_decode_encode();
        assert(bytes.subrange(start + ENTRY_SIZE * i, start + ENTRY_SIZE * i + ENTRY_SIZE)
            =~= encode_table(entries).subrange(ENTRY_SIZE * i, ENTRY_SIZE * i + ENTRY_SIZE));
    }
    assert(read =~= entries);
}

/// Appends the encoding of each entry to `out`, in order.
pub fn encode_table_into(entries: &[OffsetEntry], out: &mut Vec<u8>)
    ensures
        final(out)@ == old(out)@ + encode_table(entries@),
{
    let ghost start = old(out)@;
    let n = entries.len();
    let mut i: usize = 0;
    assert(entries@.subrange(0, 0) =~= Seq::<OffsetEntry>::empty());
    assert(out@ =~= start + encode_table(entries@.subrange(0, 0)));
    while i < n
        invariant
            i <= n,
            n == entries@.len(),
            out@ == start + encode_table(entries@.subrange(0, i as int)),
        decreases n - i,
    {
        let ghost done = entries@.subrange(0, i as int);
        let ghost next = entries@.subrange(0, i + 1);
        entries[i].encode_into(out);
        assert(next.drop_last() =~= done);
        assert(next.last() == entries@[i as int]);
        assert(out@ =~= start + encode_table(next));
        i = i + 1;
    }
    assert(entries@.subrange(0, n as int) =~= entries@);
}

/// Scans the table of `size` bytes that starts at `start` in `buffer` for
/// the first entry with the given id.
pub fn find_in_table(buffer: &[u8], start: usize, size: usize, field_id: u32) -> (found: Option<
    OffsetEntry,
>)
    requires
        start + size <= buffer@.len(),
    ensures
        found == lookup(table_entries(buffer@, start as int, size as int), field_id),
{
    let ghost entries = table_entries(buffer@, start as int, size as int);
    let count = size / ENTRY_SIZE;
    let mut i: usize = 0;
    assert(buffer@.len() == buffer.len());
    assert(entries.subrange(0, entries.len() as int) =~= entries);
    while i < count
        invariant
            i <= count,
            count == size / ENTRY_SIZE,
            count == entries.len(),
            start + size <= buffer@.len() <= usize::MAX,
            entries == table_entries(buffer@, start as int, size as int),
            lookup(entries, field_id) == lookup(
                entries.subrange(i as int, count as int),
                field_id,
            ),
        decreases count - i,
    {
        let ghost tail = entries.subrange(i as int, count as int);
        assert(ENTRY_SIZE * i + ENTRY_SIZE <= size);
        let entry = OffsetEntry::decode(buffer, start + ENTRY_SIZE * i);
        assert(entry == tail[0]);
        if entry.field_id == field_id {
            return Some(entry);
        }
        assert(tail.drop_first() =~= entries.subrange(i + 1, count as int));
        i = i + 1;
    }
    None
}

} // verus!
