//! The builder that assembles a buffer, and the two views that read and
//! rewrite one.

use crate::codec::Scalar;
use crate::error::SerializationError;
use crate::format::{
    clamp_to_usize, encode_table, encode_table_into, find_in_table, lookup, FieldType,
    FormatHeader, OffsetEntry, HEADER_SIZE,
};
use crate::model::{
    check_buffer, entries_of, read_blob, read_field, read_string, scan_end, splice, write_blob,
    write_field, write_string, zeros,
};
use vstd::prelude::*;
use vstd::string::StringSliceAdditionalSpecFns;
use vstd::utf8::{decode_utf8, encode_utf8_decode_utf8, valid_utf8};

verus! {

/// Assembles a buffer section by section. It appends what it is given, in
/// the order of the calls, and checks nothing: a buffer that a view accepts
/// comes from writing the header, the offset table, the fixed data and the
/// variable data, in this order and with the sizes that the header declares.
pub struct BinarySerializer {
    buffer: Vec<u8>,
}

impl View for BinarySerializer {
    type V = Seq<u8>;

    /// The bytes written so far.
    closed spec fn view(&self) -> Seq<u8> {
        self.buffer@
    }
}

impl BinarySerializer {
    /// A builder that holds no bytes.
    pub fn new() -> (serializer: Self)
        ensures
            serializer@ == Seq::<u8>::empty(),
    {
        BinarySerializer { buffer: Vec::new() }
    }

    /// Appends the 80 bytes of `header`.
    pub fn write_header(&mut self, header: FormatHeader)
        ensures
            final(self)@ == old(self)@ + header.spec_encode(),
    {
        header.encode_into(&mut self.buffer);
    }

    /// Appends the 12 bytes of each entry, in order.
    pub fn write_offset_table(&mut self, entries: &[OffsetEntry])
        ensures
            final(self)@ == old(self)@ + encode_table(entries@),
    {
        encode_table_into(entries, &mut self.buffer);
    }

    /// Appends the bytes of the fixed-data section.
    pub fn write_data(&mut self, data: &[u8])
        ensures
            final(self)@ == old(self)@ + data@,
    {
        self.buffer.extend_from_slice(data);
        assert(self.buffer@ =~= old(self)@ + data@);
    }

    /// Appends the bytes of the variable-data section.
    pub fn write_var_data(&mut self, data: &[u8])
        ensures
            final(self)@ == old(self)@ + data@,
    {
        self.buffer.extend_from_slice(data);
        assert(self.buffer@ =~= old(self)@ + data@);
    }

    /// The finished buffer.
    pub fn into_buffer(self) -> (buffer: Vec<u8>)
        ensures
            buffer@ == self@,
    {
        self.buffer
    }

    /// The bytes written so far.
    pub fn buffer(&self) -> (buffer: &[u8])
        ensures
            buffer@ == self@,
    {
        self.buffer.as_slice()
    }
}

impl Default for BinarySerializer {
    fn default() -> (serializer: Self)
        ensures
            serializer@ == Seq::<u8>::empty(),
    {
        BinarySerializer::new()
    }
}

/// `core::str::from_utf8`, with its error dropped. Nothing here proves
/// what the contract says; it is what the standard library documents: the
/// call succeeds exactly on valid UTF-8, and the string it returns is made
/// of the bytes it was given.
#[verifier::external_body]
fn str_from_utf8(bytes: &[u8]) -> (text: Option<&str>)
    ensures
        text is Some <==> valid_utf8(bytes@),
        text matches Some(s) ==> s.spec_bytes() == bytes@,
{
    match core::str::from_utf8(bytes) {
        Ok(text) => Some(text),
        Err(_) => None,
    }
}

/// What a slice result stands for in the model: its bytes, or the error.
pub open spec fn slice_result(r: Result<&[u8], SerializationError>) -> Result<
    Seq<u8>,
    SerializationError,
> {
    match r {
        Ok(bytes) => Ok(bytes@),
        Err(e) => Err(e),
    }
}

/// What a write leaves behind, given what the model says of it: on success
/// the buffer that the model gives, else the model's error and the buffer
/// as it was.
pub open spec fn write_outcome(
    r: Result<(), SerializationError>,
    before: Seq<u8>,
    after: Seq<u8>,
    model: Result<Seq<u8>, SerializationError>,
) -> bool {
    match model {
        Ok(bytes) => r is Ok && after == bytes,
        Err(e) => r == Err::<(), SerializationError>(e) && after == before,
    }
}

/// A read-only view of a buffer that validation has accepted. It borrows the
/// buffer and copies nothing but the header's fields.
pub struct BinaryView<'a> {
    buffer: &'a [u8],
    header: FormatHeader,
}

impl<'a> BinaryView<'a> {
    /// The bytes of the buffer.
    pub closed spec fn bytes(&self) -> Seq<u8> {
        self.buffer@
    }

    /// The header that the buffer starts with.
    pub closed spec fn header(&self) -> FormatHeader {
        self.header
    }

    /// The offset table of the buffer.
    pub open spec fn entries(&self) -> Seq<OffsetEntry> {
        entries_of(self.bytes(), self.header())
    }

    #[verifier::type_invariant]
    spec fn accepted(&self) -> bool {
        check_buffer(self.buffer@) == Ok::<FormatHeader, SerializationError>(self.header)
    }

    /// Validates `buffer` and makes a view of it: the buffer has at least 80
    /// bytes, its header has the format's magic number and version, and it
    /// is as long as its header declares.
    pub fn view(buffer: &'a [u8]) -> (r: Result<Self, SerializationError>)
        ensures
            (match check_buffer(buffer@) {
                Ok(header) => r matches Ok(v) && v.bytes() == buffer@ && v.header() == header,
                Err(e) => r matches Err(x) && x == e,
            }),
    {
        let have = buffer.len();
        if have < HEADER_SIZE {
            return Err(SerializationError::BufferTooSmall { needed: HEADER_SIZE, have });
        }
        let header = FormatHeader::decode(buffer);
        match header.validate() {
            Err(e) => {
                return Err(e);
            },
            Ok(_) => {},
        }
        let needed = header.total_size_wide();
        if (have as u64) < needed {
            return Err(
                SerializationError::BufferTooSmall {
                    needed: clamp_to_usize(needed as u128),
                    have,
                },
            );
        }
        Ok(BinaryView { buffer, header })
    }

    /// The first entry of the offset table with the given id.
    pub fn find_entry(&self, field_id: u32) -> (found: Option<OffsetEntry>)
        ensures
            found == lookup(self.entries(), field_id),
    {
        proof {
            use_type_invariant(self);
        }
        find_in_table(
            self.buffer,
            self.header.header_size as usize,
            self.header.offset_table_size as usize,
            field_id,
        )
    }

    /// The `width` bytes of the fixed field `field_id`, in place.
    pub fn get_field_bytes(&self, field_id: u32, width: usize) -> (r: Result<
        &'a [u8],
        SerializationError,
    >)
        ensures
            slice_result(r) == read_field(self.bytes(), self.header(), field_id, width as nat),
    {
        proof {
            use_type_invariant(self);
        }
        let entry = match self.find_entry(field_id) {
            Some(entry) => entry,
            None => {
                return Err(SerializationError::FieldNotFound { field_id });
            },
        };
        let len = self.buffer.len();
        let data_start = self.header.data_section_offset();
        let end: u128 = data_start as u128 + entry.offset as u128 + width as u128;
        if end > len as u128 {
            return Err(SerializationError::InvalidOffset { offset: clamp_to_usize(end), size: len });
        }
        let start = data_start + entry.offset as usize;
        Ok(&self.buffer[start..start + width])
    }

    /// The value of the fixed field `field_id`, read as a `T`.
    pub fn get_field<T: Scalar>(&self, field_id: u32) -> (r: Result<T, SerializationError>)
        ensures
            r == (match read_field(self.bytes(), self.header(), field_id, T::spec_width()) {
                Ok(bytes) => Ok(T::spec_decode(bytes)),
                Err(e) => Err(e),
            }),
    {
        match self.get_field_bytes(field_id, T::width()) {
            Ok(bytes) => Ok(T::decode(bytes)),
            Err(e) => Err(e),
        }
    }

    /// The text of the string field `field_id`, in place: the bytes from the
    /// field's offset up to the first NUL byte or the end of the buffer.
    pub fn get_string(&self, field_id: u32) -> (r: Result<&'a str, SerializationError>)
        ensures
            (match read_string(self.bytes(), self.header(), field_id) {
                Ok(text) => r matches Ok(s) && s.spec_bytes() == text && s@ == decode_utf8(text),
                Err(e) => r matches Err(x) && x == e,
            }),
    {
        proof {
            use_type_invariant(self);
        }
        let entry = match self.find_entry(field_id) {
            Some(entry) => entry,
            None => {
                return Err(SerializationError::FieldNotFound { field_id });
            },
        };
        if entry.field_type != FieldType::String.tag() {
            return Err(
                SerializationError::FieldSizeMismatch {
                    expected: FieldType::String.tag() as usize,
                    got: entry.field_type as usize,
                },
            );
        }
        let len = self.buffer.len();
        let var_start = self.header.var_section_offset();
        let wide_start: u64 = var_start as u64 + entry.offset as u64;
        if wide_start > len as u64 {
            return Err(
                SerializationError::InvalidOffset {
                    offset: clamp_to_usize(wide_start as u128),
                    size: len,
                },
            );
        }
        let start = wide_start as usize;
        let mut end = start;
        while end < len && self.buffer[end] != 0
            invariant
                start <= end <= len,
                len == self.buffer@.len(),
                scan_end(self.buffer@, start as int) == scan_end(self.buffer@, end as int),
            decreases len - end,
        {
            end = end + 1;
        }
        match str_from_utf8(&self.buffer[start..end]) {
            Some(text) => {
                proof {
                    encode_utf8_decode_utf8(text@);
                }
                Ok(text)
            },
            None => Err(SerializationError::FieldSizeMismatch { expected: 0, got: 0 }),
        }
    }

    /// The bytes of the blob field `field_id`, in place: the whole span that
    /// its entry reserves.
    pub fn get_blob(&self, field_id: u32) -> (r: Result<&'a [u8], SerializationError>)
        ensures
            slice_result(r) == read_blob(self.bytes(), self.header(), field_id),
    {
        proof {
            use_type_invariant(self);
        }
        let entry = match self.find_entry(field_id) {
            Some(entry) => entry,
            None => {
                return Err(SerializationError::FieldNotFound { field_id });
            },
        };
        if entry.field_type != FieldType::Blob.tag() {
            return Err(
                SerializationError::FieldSizeMismatch {
                    expected: FieldType::Blob.tag() as usize,
                    got: entry.field_type as usize,
                },
            );
        }
        let len = self.buffer.len();
        let var_start = self.header.var_section_offset();
        let end: u64 = var_start as u64 + entry.offset as u64 + entry.size as u64;
        if end > len as u64 {
            return Err(
                SerializationError::InvalidOffset { offset: clamp_to_usize(end as u128), size: len },
            );
        }
        let start = var_start + entry.offset as usize;
        Ok(&self.buffer[start..start + entry.size as usize])
    }
}

/// A view that rewrites fields in place, within the spans that the offset
/// table reserves. It borrows the buffer exclusively, keeps its length, and
/// goes by the header that it read when it was made.
pub struct BinaryViewMut<'a> {
    buffer: &'a mut [u8],
    header: FormatHeader,
}

impl<'a> BinaryViewMut<'a> {
    /// The bytes of the buffer as they are now.
    pub closed spec fn bytes(&self) -> Seq<u8> {
        self.buffer@
    }

    /// The header that the buffer started with when the view was made.
    pub closed spec fn header(&self) -> FormatHeader {
        self.header
    }

    /// The borrow that the view holds. What this borrow ends with is what
    /// the caller's buffer holds once the view is gone.
    pub closed spec fn borrowed(&self) -> &'a mut [u8] {
        self.buffer
    }

    /// The offset table of the buffer.
    pub open spec fn entries(&self) -> Seq<OffsetEntry> {
        entries_of(self.bytes(), self.header())
    }

    #[verifier::type_invariant]
    spec fn accepted(&self) -> bool {
        &&& self.header.spec_validate() is Ok
        &&& self.header.spec_total_size() <= self.buffer@.len()
    }

    /// Validates `buffer` as `BinaryView::view` does, and makes a view of
    /// it that can write.
    pub fn view_mut(buffer: &'a mut [u8]) -> (r: Result<Self, SerializationError>)
        ensures
            (match check_buffer(old(buffer)@) {
                Ok(header) => r matches Ok(v) && v.bytes() == old(buffer)@ && v.header() == header
                    && final(buffer)@ == final(v.borrowed())@,
                Err(e) => r matches Err(x) && x == e && final(buffer)@ == old(buffer)@,
            }),
    {
        let have = buffer.len();
        if have < HEADER_SIZE {
            return Err(SerializationError::BufferTooSmall { needed: HEADER_SIZE, have });
        }
        let header = FormatHeader::decode(buffer);
        match header.validate() {
            Err(e) => {
                return Err(e);
            },
            Ok(_) => {},
        }
        let needed = header.total_size_wide();
        if (have as u64) < needed {
            return Err(
                SerializationError::BufferTooSmall {
                    needed: clamp_to_usize(needed as u128),
                    have,
                },
            );
        }
        Ok(BinaryViewMut { buffer, header })
    }

    /// Ends the view and hands the borrow back, with the bytes as the view
    /// left them.
    pub fn into_inner(self) -> (buffer: &'a mut [u8])
        ensures
            buffer@ == self.bytes(),
            final(buffer)@ == final(self.borrowed())@,
    {
        let BinaryViewMut { buffer, header: _ } = self;
        buffer
    }

    /// The first entry of the offset table with the given id.
    pub fn find_entry(&self, field_id: u32) -> (found: Option<OffsetEntry>)
        ensures
            found == lookup(self.entries(), field_id),
    {
        proof {
            use_type_invariant(self);
        }
        find_in_table(
            &*self.buffer,
            self.header.header_size as usize,
            self.header.offset_table_size as usize,
            field_id,
        )
    }

    /// Writes `value` over the fixed field `field_id`, whose size must be
    /// the length of `value`.
    pub fn modify_field_bytes(&mut self, field_id: u32, value: &[u8]) -> (r: Result<
        (),
        SerializationError,
    >)
        ensures
            final(self).header() == old(self).header(),
            final(final(self).borrowed())@ == final(old(self).borrowed())@,
            write_outcome(
                r,
                old(self).bytes(),
                final(self).bytes(),
                write_field(old(self).bytes(), old(self).header(), field_id, value@),
            ),
    {
        proof {
            use_type_invariant(&*self);
        }
        let entry = match self.find_entry(field_id) {
            Some(entry) => entry,
            None => {
                return Err(SerializationError::FieldNotFound { field_id });
            },
        };
        let width = value.len();
        if width != entry.size as usize {
            return Err(
                SerializationError::FieldSizeMismatch {
                    expected: entry.size as usize,
                    got: width,
                },
            );
        }
        let len = self.buffer.len();
        let data_start = self.header.data_section_offset();
        let end: u64 = data_start as u64 + entry.offset as u64 + width as u64;
        if end > len as u64 {
            return Err(
                SerializationError::InvalidOffset { offset: clamp_to_usize(end as u128), size: len },
            );
        }
        let start = data_start + entry.offset as usize;
        self.write_at(start, value);
        Ok(())
    }

    /// Writes the encoding of `value` over the fixed field `field_id`, whose
    /// size must be the width of `T`.
    pub fn modify_field<T: Scalar>(&mut self, field_id: u32, value: &T) -> (r: Result<
        (),
        SerializationError,
    >)
        ensures
            final(self).header() == old(self).header(),
            final(final(self).borrowed())@ == final(old(self).borrowed())@,
            write_outcome(
                r,
                old(self).bytes(),
                final(self).bytes(),
                write_field(old(self).bytes(), old(self).header(), field_id, value.spec_encode()),
            ),
    {
        let encoded = value.encode();
        self.modify_field_bytes(field_id, encoded.as_slice())
    }

    /// Sets the string field `field_id` to `value`: the reserved span is
    /// zeroed, then the text is written at its start. One byte of the span
    /// stays zero as the terminator, so the text must be shorter than the span.
    pub fn modify_string(&mut self, field_id: u32, value: &str) -> (r: Result<
        (),
        SerializationError,
    >)
        ensures
            final(self).header() == old(self).header(),
            final(final(self).borrowed())@ == final(old(self).borrowed())@,
            write_outcome(
                r,
                old(self).bytes(),
                final(self).bytes(),
                write_string(old(self).bytes(), old(self).header(), field_id, value.spec_bytes()),
            ),
    {
        proof {
            use_type_invariant(&*self);
        }
        let entry = match self.find_entry(field_id) {
            Some(entry) => entry,
            None => {
                return Err(SerializationError::FieldNotFound { field_id });
            },
        };
        if entry.field_type != FieldType::String.tag() {
            return Err(
                SerializationError::FieldSizeMismatch {
                    expected: FieldType::String.tag() as usize,
                    got: entry.field_type as usize,
                },
            );
        }
        let text = value.as_bytes();
        let size = entry.size as usize;
        if text.len() >= size {
            return Err(
                SerializationError::FieldSizeMismatch {
                    expected: size,
                    got: clamp_to_usize(text.len() as u128 + 1),
                },
            );
        }
        let len = self.buffer.len();
        let var_start = self.header.var_section_offset();
        let end: u64 = var_start as u64 + entry.offset as u64 + entry.size as u64;
        if end > len as u64 {
            return Err(
                SerializationError::InvalidOffset { offset: clamp_to_usize(end as u128), size: len },
            );
        }
        let start = var_start + entry.offset as usize;
        self.zero_span(start, size);
        self.write_at(start, text);
        assert(self.buffer@ =~= splice(
            old(self).buffer@,
            start as int,
            text@ + zeros(size - text@.len()),
        ));
        Ok(())
    }

    /// Sets the blob field `field_id` to `value`: the reserved span is
    /// zeroed, then the bytes are written at its start.
    pub fn modify_blob(&mut self, field_id: u32, value: &[u8]) -> (r: Result<
        (),
        SerializationError,
    >)
        ensures
            final(self).header() == old(self).header(),
            final(final(self).borrowed())@ == final(old(self).borrowed())@,
            write_outcome(
                r,
                old(self).bytes(),
                final(self).bytes(),
                write_blob(old(self).bytes(), old(self).header(), field_id, value@),
            ),
    {
        proof {
            use_type_invariant(&*self);
        }
        let entry = match self.find_entry(field_id) {
            Some(entry) => entry,
            None => {
                return Err(SerializationError::FieldNotFound { field_id });
            },
        };
        if entry.field_type != FieldType::Blob.tag() {
            return Err(
                SerializationError::FieldSizeMismatch {
                    expected: FieldType::Blob.tag() as usize,
                    got: entry.field_type as usize,
                },
            );
        }
        let size = entry.size as usize;
        if value.len() > size {
            return Err(
                SerializationError::FieldSizeMismatch { expected: size, got: value.len() },
            );
        }
        let len = self.buffer.len();
        let var_start = self.header.var_section_offset();
        let end: u64 = var_start as u64 + entry.offset as u64 + entry.size as u64;
        if end > len as u64 {
            return Err(
                SerializationError::InvalidOffset { offset: clamp_to_usize(end as u128), size: len },
            );
        }
        let start = var_start + entry.offset as usize;
        self.zero_span(start, size);
        self.write_at(start, value);
        assert(self.buffer@ =~= splice(
            old(self).buffer@,
            start as int,
            value@ + zeros(size - value@.len()),
        ));
        Ok(())
    }

    /// Writes `value` over the buffer from index `at`.
    fn write_at(&mut self, at: usize, value: &[u8])
        requires
            at + value@.len() <= old(self).bytes().len(),
        ensures
            final(self).header() == old(self).header(),
            final(final(self).borrowed())@ == final(old(self).borrowed())@,
            final(self).bytes() == splice(old(self).bytes(), at as int, value@),
    {
        proof {
            use_type_invariant(&*self);
        }
        let n = value.len();
        let mut i: usize = 0;
        assert(self.buffer@ =~= splice(old(self).buffer@, at as int, value@.subrange(0, 0)));
        while i < n
            invariant
                i <= n,
                n == value@.len(),
                at + n <= self.buffer@.len(),
                self.header == old(self).header,
                self.header.spec_validate() is Ok,
                self.header.spec_total_size() <= self.buffer@.len(),
                self.buffer@.len() == old(self).buffer@.len(),
                final(self.buffer)@ == final(old(self).buffer)@,
                self.buffer@ == splice(old(self).buffer@, at as int, value@.subrange(0, i as int)),
            decreases n - i,
        {
            assert(self.buffer@.len() == self.buffer.len());
            self.buffer[at + i] = value[i];
            i = i + 1;
            assert(self.buffer@ =~= splice(
                old(self).buffer@,
                at as int,
                value@.subrange(0, i as int),
            ));
        }
        assert(value@.subrange(0, n as int) =~= value@);
    }

    /// Sets the `count` bytes of the buffer from index `at` to zero.
    fn zero_span(&mut self, at: usize, count: usize)
        requires
            at + count <= old(self).bytes().len(),
        ensures
            final(self).header() == old(self).header(),
            final(final(self).borrowed())@ == final(old(self).borrowed())@,
            final(self).bytes() == splice(old(self).bytes(), at as int, zeros(count as int)),
    {
        proof {
            use_type_invariant(&*self);
        }
        let mut i: usize = 0;
        assert(self.buffer@ =~= splice(old(self).buffer@, at as int, zeros(0)));
        while i < count
            invariant
                i <= count,
                at + count <= self.buffer@.len(),
                self.header == old(self).header,
                self.header.spec_validate() is Ok,
                self.header.spec_total_size() <= self.buffer@.len(),
                self.buffer@.len() == old(self).buffer@.len(),
                final(self.buffer)@ == final(old(self).buffer)@,
                self.buffer@ == splice(old(self).buffer@, at as int, zeros(i as int)),
            decreases count - i,
        {
            assert(self.buffer@.len() == self.buffer.len());
            self.buffer[at + i] = 0;
            i = i + 1;
            assert(self.buffer@ =~= splice(old(self).buffer@, at as int, zeros(i as int)));
        }
    }
}

} // verus!
