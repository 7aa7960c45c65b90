//! Laws that relate building, reading and writing.
//!
//! Each law is stated over the functions of `model`, by which the contracts
//! of the builder and of the views are stated too.

use crate::codec::Scalar;
use crate::error::SerializationError;
use crate::format::{
    encode_table, lemma_encode_table_len, lemma_table_decode_encode, lookup, table_entries,
    FieldType, FormatHeader, OffsetEntry, ENTRY_SIZE, HEADER_SIZE,
};
use crate::model::{
    check_buffer, entries_of, invalid_offset, read_blob, read_field, read_string, scan_end,
    splice, write_blob, write_field, write_string, wrong_tag, zeros,
};
use vstd::prelude::*;
use vstd::utf8::valid_utf8;

verus! {

/// A scan stops inside the buffer, on a NUL byte or at the end, and passes
/// no NUL byte on its way.
pub proof fn lemma_scan_end(bytes: Seq<u8>, from: int)
    requires
        0 <= from <= bytes.len(),
    ensures
        from <= scan_end(bytes, from) <= bytes.len(),
        scan_end(bytes, from) == bytes.len() || bytes[scan_end(bytes, from)] == 0,
        forall|i: int| from <= i < scan_end(bytes, from) ==> bytes[i] != 0,
    decreases bytes.len() - from,
{
    if from < bytes.len() && bytes[from] != 0 {
        lemma_scan_end(bytes, from + 1);
    }
}

/// A scan stops at the first index from `from` that holds a NUL byte or
/// ends the buffer.
pub proof fn lemma_scan_end_is(bytes: Seq<u8>, from: int, end: int)
    requires
        0 <= from <= end <= bytes.len(),
        end == bytes.len() || bytes[end] == 0,
        forall|i: int| from <= i < end ==> bytes[i] != 0,
    ensures
        scan_end(bytes, from) == end,
    decreases end - from,
{
    if from < end {
        lemma_scan_end_is(bytes, from + 1, end);
    }
}

/// Writing at or after the end of the offset table leaves the table as it
/// was.
pub proof fn lemma_splice_keeps_entries(
    bytes: Seq<u8>,
    header: FormatHeader,
    at: int,
    value: Seq<u8>,
)
    requires
        header.spec_data_section_offset() <= at,
        at + value.len() <= bytes.len(),
    ensures
        splice(bytes, at, value).len() == bytes.len(),
        entries_of(splice(bytes, at, value), header) == entries_of(bytes, header),
{
    let after = splice(bytes, at, value);
    let start = header.header_size as int;
    let size = header.offset_table_size as int;
    let old_entries = entries_of(bytes, header);
    let new_entries = entries_of(after, header);
    assert forall|i: int| 0 <= i < old_entries.len() implies new_entries[i] == old_entries[i] by {
        assert(ENTRY_SIZE * i + ENTRY_SIZE <= size);
        assert(after.subrange(start + ENTRY_SIZE * i, start + ENTRY_SIZE * i + ENTRY_SIZE)
            =~= bytes.subrange(start + ENTRY_SIZE * i, start + ENTRY_SIZE * i + ENTRY_SIZE));
    }
    assert(new_entries =~= old_entries);
}

/// Writing at or after byte 80 leaves the header as it was, and so what
/// validation says of the buffer.
pub proof fn lemma_splice_keeps_header(bytes: Seq<u8>, at: int, value: Seq<u8>)
    requires
        HEADER_SIZE <= at,
        at + value.len() <= bytes.len(),
    ensures
        FormatHeader::spec_decode(splice(bytes, at, value)) == FormatHeader::spec_decode(bytes),
        check_buffer(splice(bytes, at, value)) == check_buffer(bytes),
{
    let after = splice(bytes, at, value);
    assert(after.len() == bytes.len());
    assert(after.subrange(0, 4) =~= bytes.subrange(0, 4));
    assert(after.subrange(4, 8) =~= bytes.subrange(4, 8));
    assert(after.subrange(8, 12) =~= bytes.subrange(8, 12));
    assert(after.subrange(12, 16) =~= bytes.subrange(12, 16));
    assert(after.subrange(16, 20) =~= bytes.subrange(16, 20));
    assert(after.subrange(20, 24) =~= bytes.subrange(20, 24));
    assert(after.subrange(24, 32) =~= bytes.subrange(24, 32));
    assert(after.subrange(32, 40) =~= bytes.subrange(32, 40));
    assert(after.subrange(40, 48) =~= bytes.subrange(40, 48));
    assert(after.subrange(48, 56) =~= bytes.subrange(48, 56));
    assert(after.subrange(56, 64) =~= bytes.subrange(56, 64));
    assert(after.subrange(64, 72) =~= bytes.subrange(64, 72));
    assert(after.subrange(72, 80) =~= bytes.subrange(72, 80));
    assert(FormatHeader::spec_decode(after).reserved =~= FormatHeader::spec_decode(bytes).reserved);
}

/// After a write to a fixed field, a read of that field with the value's
/// width returns the value. The write keeps the buffer's length and its
/// offset table, changes no byte outside the field's span, and changes
/// nothing at all when it is repeated.
pub proof fn lemma_write_then_read_field(
    bytes: Seq<u8>,
    header: FormatHeader,
    field_id: u32,
    value: Seq<u8>,
)
    requires
        write_field(bytes, header, field_id, value) is Ok,
    ensures
        ({
            let after = write_field(bytes, header, field_id, value)->Ok_0;
            let entry = lookup(entries_of(bytes, header), field_id)->Some_0;
            let start = header.spec_data_section_offset() + entry.offset;
            &&& after.len() == bytes.len()
            &&& entries_of(after, header) == entries_of(bytes, header)
            &&& read_field(after, header, field_id, value.len()) == Ok::<
                Seq<u8>,
                SerializationError,
            >(value)
            &&& write_field(after, header, field_id, value) == Ok::<Seq<u8>, SerializationError>(
                after,
            )
            &&& forall|i: int|
                0 <= i < bytes.len() && !(start <= i < start + value.len()) ==> after[i]
                    == bytes[i]
        }),
{
    let after = write_field(bytes, header, field_id, value)->Ok_0;
    let entry = lookup(entries_of(bytes, header), field_id)->Some_0;
    let start = header.spec_data_section_offset() + entry.offset;
    lemma_splice_keeps_entries(bytes, header, start, value);
    assert(after.subrange(start, start + value.len()) =~= value);
    assert(splice(after, start, value) =~= after);
}

/// A value that was written to a fixed field as a `T` is read back as the
/// same `T`.
pub proof fn lemma_modify_then_get<T: Scalar>(
    bytes: Seq<u8>,
    header: FormatHeader,
    field_id: u32,
    value: T,
)
    requires
        write_field(bytes, header, field_id, value.spec_encode()) is Ok,
    ensures
        ({
            let after = write_field(bytes, header, field_id, value.spec_encode())->Ok_0;
            &&& read_field(after, header, field_id, T::spec_width()) is Ok
            &&& T::spec_decode(read_field(after, header, field_id, T::spec_width())->Ok_0)
                == value
        }),
{
    T::lemma_codec(value);
    lemma_write_then_read_field(bytes, header, field_id, value.spec_encode());
}

/// After a write to a string field, a read of that field returns the text
/// that was written, provided the text is valid UTF-8 and holds no NUL
/// byte. The write keeps the buffer's length and its offset table.
pub proof fn lemma_write_then_read_string(
    bytes: Seq<u8>,
    header: FormatHeader,
    field_id: u32,
    value: Seq<u8>,
)
    requires
        write_string(bytes, header, field_id, value) is Ok,
        valid_utf8(value),
        forall|i: int| 0 <= i < value.len() ==> value[i] != 0,
    ensures
        ({
            let after = write_string(bytes, header, field_id, value)->Ok_0;
            &&& after.len() == bytes.len()
            &&& entries_of(after, header) == entries_of(bytes, header)
            &&& read_string(after, header, field_id) == Ok::<Seq<u8>, SerializationError>(value)
        }),
{
    let after = write_string(bytes, header, field_id, value)->Ok_0;
    let entry = lookup(entries_of(bytes, header), field_id)->Some_0;
    let start = header.spec_var_section_offset() + entry.offset;
    let filled = value + zeros(entry.size - value.len());
    lemma_splice_keeps_entries(bytes, header, start, filled);
    assert(after[start + value.len()] == filled[value.len() as int]);
    assert forall|i: int| start <= i < start + value.len() implies after[i] != 0 by {
        assert(after[i] == filled[i - start]);
        assert(filled[i - start] == value[i - start]);
    }
    lemma_scan_end_is(after, start, start + value.len());
    assert(after.subrange(start, start + value.len()) =~= value);
}

/// After a write to a blob field, a read of that field returns the bytes
/// that were written, followed by zeros up to the size of the reserved span.
/// The write keeps the buffer's length and its offset table.
pub proof fn lemma_write_then_read_blob(
    bytes: Seq<u8>,
    header: FormatHeader,
    field_id: u32,
    value: Seq<u8>,
)
    requires
        write_blob(bytes, header, field_id, value) is Ok,
    ensures
        ({
            let after = write_blob(bytes, header, field_id, value)->Ok_0;
            let entry = lookup(entries_of(bytes, header), field_id)->Some_0;
            &&& after.len() == bytes.len()
            &&& entries_of(after, header) == entries_of(bytes, header)
            &&& read_blob(after, header, field_id) == Ok::<Seq<u8>, SerializationError>(
                value + zeros(entry.size - value.len()),
            )
        }),
{
    let after = write_blob(bytes, header, field_id, value)->Ok_0;
    let entry = lookup(entries_of(bytes, header), field_id)->Some_0;
    let start = header.spec_var_section_offset() + entry.offset;
    let filled = value + zeros(entry.size - value.len());
    lemma_splice_keeps_entries(bytes, header, start, filled);
    assert(after.subrange(start, start + entry.size) =~= filled);
}

/// No write touches a byte before the fixed-data section: the range that
/// the header gives itself and the range of the offset table stay as they
/// are, and the buffer keeps its length.
pub proof fn lemma_writes_stay_in_data_sections(
    bytes: Seq<u8>,
    header: FormatHeader,
    field_id: u32,
    value: Seq<u8>,
)
    ensures
        write_field(bytes, header, field_id, value) matches Ok(after) ==> after.len()
            == bytes.len() && after.subrange(0, header.spec_data_section_offset())
            == bytes.subrange(0, header.spec_data_section_offset()),
        write_string(bytes, header, field_id, value) matches Ok(after) ==> after.len()
            == bytes.len() && after.subrange(0, header.spec_var_section_offset())
            == bytes.subrange(0, header.spec_var_section_offset()),
        write_blob(bytes, header, field_id, value) matches Ok(after) ==> after.len()
            == bytes.len() && after.subrange(0, header.spec_var_section_offset())
            == bytes.subrange(0, header.spec_var_section_offset()),
{
    match write_field(bytes, header, field_id, value) {
        Ok(after) => {
            assert(after.subrange(0, header.spec_data_section_offset()) =~= bytes.subrange(
                0,
                header.spec_data_section_offset(),
            ));
        },
        Err(_) => {},
    }
    match write_string(bytes, header, field_id, value) {
        Ok(after) => {
            assert(after.subrange(0, header.spec_var_section_offset()) =~= bytes.subrange(
                0,
                header.spec_var_section_offset(),
            ));
        },
        Err(_) => {},
    }
    match write_blob(bytes, header, field_id, value) {
        Ok(after) => {
            assert(after.subrange(0, header.spec_var_section_offset()) =~= bytes.subrange(
                0,
                header.spec_var_section_offset(),
            ));
        },
        Err(_) => {},
    }
}

/// Where the header declares its own size as 80 or more, a write leaves the
/// header's bytes alone: the buffer is accepted after the write as it was
/// before, with the same header.
pub proof fn lemma_write_keeps_buffer_accepted(
    bytes: Seq<u8>,
    header: FormatHeader,
    field_id: u32,
    value: Seq<u8>,
)
    requires
        check_buffer(bytes) == Ok::<FormatHeader, SerializationError>(header),
        header.header_size >= HEADER_SIZE,
    ensures
        write_field(bytes, header, field_id, value) matches Ok(after) ==> check_buffer(after)
            == Ok::<FormatHeader, SerializationError>(header),
        write_string(bytes, header, field_id, value) matches Ok(after) ==> check_buffer(after)
            == Ok::<FormatHeader, SerializationError>(header),
        write_blob(bytes, header, field_id, value) matches Ok(after) ==> check_buffer(after)
            == Ok::<FormatHeader, SerializationError>(header),
{
    match lookup(entries_of(bytes, header), field_id) {
        Some(entry) => {
            let filled = value + zeros(entry.size - value.len());
            if write_field(bytes, header, field_id, value) is Ok {
                lemma_splice_keeps_header(
                    bytes,
                    header.spec_data_section_offset() + entry.offset,
                    value,
                );
            }
            if write_string(bytes, header, field_id, value) is Ok || write_blob(
                bytes,
                header,
                field_id,
                value,
            ) is Ok {
                lemma_splice_keeps_header(
                    bytes,
                    header.spec_var_section_offset() + entry.offset,
                    filled,
                );
            }
        },
        None => {},
    }
}

/// An access whose span would end after the buffer's end fails, and no
/// successful access reaches outside the buffer. The error is
/// `InvalidOffset`, unless the entry's tag or size already rules the access
/// out.
pub proof fn lemma_out_of_bounds_is_rejected(
    bytes: Seq<u8>,
    header: FormatHeader,
    field_id: u32,
    width: nat,
    value: Seq<u8>,
)
    requires
        lookup(entries_of(bytes, header), field_id) is Some,
    ensures
        ({
            let entry = lookup(entries_of(bytes, header), field_id)->Some_0;
            let fixed = header.spec_data_section_offset() + entry.offset;
            let var = header.spec_var_section_offset() + entry.offset;
            let len = bytes.len();
            &&& fixed + width > len ==> read_field(bytes, header, field_id, width) == Err::<
                Seq<u8>,
                SerializationError,
            >(invalid_offset(fixed + width, len))
            &&& fixed + value.len() > len ==> write_field(bytes, header, field_id, value) is Err
            &&& fixed + value.len() > len && value.len() == entry.size ==> write_field(
                bytes,
                header,
                field_id,
                value,
            ) == Err::<Seq<u8>, SerializationError>(invalid_offset(fixed + value.len(), len))
            &&& var > len ==> read_string(bytes, header, field_id) is Err
            &&& var > len && entry.field_type == FieldType::String.spec_tag() ==> read_string(
                bytes,
                header,
                field_id,
            ) == Err::<Seq<u8>, SerializationError>(invalid_offset(var, len))
            &&& read_string(bytes, header, field_id) is Ok ==> var <= scan_end(bytes, var) <= len
            &&& var + entry.size > len ==> {
                &&& read_blob(bytes, header, field_id) is Err
                &&& write_string(bytes, header, field_id, value) is Err
                &&& write_blob(bytes, header, field_id, value) is Err
            }
            &&& var + entry.size > len && entry.field_type == FieldType::Blob.spec_tag()
                ==> read_blob(bytes, header, field_id) == Err::<Seq<u8>, SerializationError>(
                invalid_offset(var + entry.size, len),
            )
            &&& var + entry.size > len && entry.field_type == FieldType::Blob.spec_tag()
                && value.len() <= entry.size ==> write_blob(bytes, header, field_id, value)
                == Err::<Seq<u8>, SerializationError>(invalid_offset(var + entry.size, len))
            &&& var + entry.size > len && entry.field_type == FieldType::String.spec_tag()
                && value.len() < entry.size ==> write_string(bytes, header, field_id, value)
                == Err::<Seq<u8>, SerializationError>(invalid_offset(var + entry.size, len))
        }),
{
    let entry = lookup(entries_of(bytes, header), field_id)->Some_0;
    let var = header.spec_var_section_offset() + entry.offset;
    if var <= bytes.len() {
        lemma_scan_end(bytes, var);
    }
}

/// A string access to an entry that is not tagged as a string fails with
/// `FieldSizeMismatch`, and so does a blob access to an entry that is not
/// tagged as a blob.
pub proof fn lemma_wrong_tag_is_rejected(
    bytes: Seq<u8>,
    header: FormatHeader,
    field_id: u32,
    value: Seq<u8>,
)
    requires
        lookup(entries_of(bytes, header), field_id) is Some,
    ensures
        ({
            let entry = lookup(entries_of(bytes, header), field_id)->Some_0;
            &&& entry.field_type != FieldType::String.spec_tag() ==> {
                &&& read_string(bytes, header, field_id) == Err::<Seq<u8>, SerializationError>(
                    wrong_tag(FieldType::String, entry),
                )
                &&& write_string(bytes, header, field_id, value) == Err::<
                    Seq<u8>,
                    SerializationError,
                >(wrong_tag(FieldType::String, entry))
            }
            &&& entry.field_type != FieldType::Blob.spec_tag() ==> {
                &&& read_blob(bytes, header, field_id) == Err::<Seq<u8>, SerializationError>(
                    wrong_tag(FieldType::Blob, entry),
                )
                &&& write_blob(bytes, header, field_id, value) == Err::<
                    Seq<u8>,
                    SerializationError,
                >(wrong_tag(FieldType::Blob, entry))
            }
            &&& wrong_tag(FieldType::String, entry) is FieldSizeMismatch
            &&& wrong_tag(FieldType::Blob, entry) is FieldSizeMismatch
        }),
{
}

/// A write to a fixed field fails with `FieldSizeMismatch` exactly when the
/// value's width is not the entry's size, whatever else holds of the entry.
pub proof fn lemma_wrong_width_is_rejected(
    bytes: Seq<u8>,
    header: FormatHeader,
    field_id: u32,
    value: Seq<u8>,
)
    requires
        lookup(entries_of(bytes, header), field_id) is Some,
    ensures
        ({
            let entry = lookup(entries_of(bytes, header), field_id)->Some_0;
            let result = write_field(bytes, header, field_id, value);
            &&& value.len() != entry.size <==> result is Err && result->Err_0 is FieldSizeMismatch
            &&& value.len() != entry.size ==> result == Err::<Seq<u8>, SerializationError>(
                SerializationError::FieldSizeMismatch {
                    expected: entry.size as usize,
                    got: crate::format::clamp_usize(value.len() as int),
                },
            )
        }),
{
}

/// The bytes that the builder holds after the header, the offset table, the
/// fixed data and the variable data were written to it, in this order.
pub open spec fn assemble(
    header: FormatHeader,
    entries: Seq<OffsetEntry>,
    data: Seq<u8>,
    var: Seq<u8>,
) -> Seq<u8> {
    header.spec_encode() + encode_table(entries) + data + var
}

/// The header is one of this format and declares the sizes that the three
/// sections have.
pub open spec fn consistent(
    header: FormatHeader,
    entries: Seq<OffsetEntry>,
    data: Seq<u8>,
    var: Seq<u8>,
) -> bool {
    &&& header.spec_validate() is Ok
    &&& header.header_size == HEADER_SIZE
    &&& header.offset_table_size == ENTRY_SIZE * entries.len()
    &&& header.data_size == data.len()
    &&& header.var_size == var.len()
}

/// A buffer assembled from consistent parts is accepted, with the header
/// and the offset table that went into it.
pub proof fn lemma_assembled_buffer_is_accepted(
    header: FormatHeader,
    entries: Seq<OffsetEntry>,
    data: Seq<u8>,
    var: Seq<u8>,
)
    requires
        consistent(header, entries, data, var),
    ensures
        assemble(header, entries, data, var).len() == header.spec_total_size(),
        check_buffer(assemble(header, entries, data, var)) == Ok::<
            FormatHeader,
            SerializationError,
        >(header),
        entries_of(assemble(header, entries, data, var), header) == entries,
{
    let bytes = assemble(header, entries, data, var);
    let table = encode_table(entries);
    lemma_encode_table_len(entries);
    header.lemma_decode_encode(table + data + var);
    assert(bytes =~= header.spec_encode() + (table + data + var));
    lemma_table_decode_encode(header.spec_encode(), entries, data + var);
    assert(bytes =~= header.spec_encode() + table + (data + var));
}

/// A view of a buffer assembled from consistent parts reads back what went
/// into the sections: of a fixed field the bytes of the fixed data at its
/// offset, of a blob the bytes of its span in the variable data, and of a
/// string the bytes of the variable data from its offset up to the first NUL
/// byte or the end.
pub proof fn lemma_round_trip(
    header: FormatHeader,
    entries: Seq<OffsetEntry>,
    data: Seq<u8>,
    var: Seq<u8>,
    field_id: u32,
    width: nat,
)
    requires
        consistent(header, entries, data, var),
        lookup(entries, field_id) is Some,
    ensures
        ({
            let bytes = assemble(header, entries, data, var);
            let entry = lookup(entries, field_id)->Some_0;
            let text = var.subrange(entry.offset as int, scan_end(var, entry.offset as int));
            &&& entry.offset + width <= data.len() ==> read_field(bytes, header, field_id, width)
                == Ok::<Seq<u8>, SerializationError>(
                data.subrange(entry.offset as int, entry.offset + width),
            )
            &&& entry.field_type == FieldType::Blob.spec_tag() && entry.offset + entry.size
                <= var.len() ==> read_blob(bytes, header, field_id) == Ok::<
                Seq<u8>,
                SerializationError,
            >(var.subrange(entry.offset as int, entry.offset + entry.size))
            &&& entry.field_type == FieldType::String.spec_tag() && entry.offset <= var.len()
                && valid_utf8(text) ==> read_string(bytes, header, field_id) == Ok::<
                Seq<u8>,
                SerializationError,
            >(text)
        }),
{
    let bytes = assemble(header, entries, data, var);
    let entry = lookup(entries, field_id)->Some_0;
    let data_start = header.spec_data_section_offset();
    let var_start = header.spec_var_section_offset();
    lemma_assembled_buffer_is_accepted(header, entries, data, var);
    lemma_encode_table_len(entries);
    header.lemma_decode_encode(Seq::empty());
    assert(data_start == header.spec_encode().len() + encode_table(entries).len());
    if entry.offset + width <= data.len() {
        assert(bytes.subrange(data_start + entry.offset, data_start + entry.offset + width)
            =~= data.subrange(entry.offset as int, entry.offset + width));
    }
    if entry.offset + entry.size <= var.len() {
        assert(bytes.subrange(var_start + entry.offset, var_start + entry.offset + entry.size)
            =~= var.subrange(entry.offset as int, entry.offset + entry.size));
    }
    if entry.offset <= var.len() {
        let from = entry.offset as int;
        let end = scan_end(var, from);
        lemma_scan_end(var, from);
        assert forall|i: int| var_start + from <= i < var_start + end implies bytes[i] != 0 by {
            assert(bytes[i] == var[i - var_start]);
        }
        if end < var.len() {
            assert(bytes[var_start + end] == var[end]);
        }
        lemma_scan_end_is(bytes, var_start + from, var_start + end);
        assert(bytes.subrange(var_start + from, var_start + end) =~= var.subrange(from, end));
    }
}

} // verus!
