use bisere::codec::{append_le, decode_le, encode_le, read_le};
use bisere::format::{
    clamp_to_usize, encode_table_into, find_in_table, ENTRY_SIZE, HEADER_SIZE, MAGIC, VERSION,
};
use bisere::{FieldType, FormatHeader, OffsetEntry, Scalar, SerializationError};

fn all_field_types() -> Vec<FieldType> {
    vec![
        FieldType::Int8,
        FieldType::Int16,
        FieldType::Int32,
        FieldType::Int64,
        FieldType::Uint8,
        FieldType::Uint16,
        FieldType::Uint32,
        FieldType::Uint64,
        FieldType::Float32,
        FieldType::Float64,
        FieldType::Bool,
        FieldType::String,
        FieldType::Blob,
    ]
}

#[test]
fn constants_have_the_format_values() {
    assert_eq!(MAGIC, 0x42495345);
    assert_eq!(&MAGIC.to_be_bytes(), b"BISE");
    assert_eq!(VERSION, 1);
    assert_eq!(HEADER_SIZE, 80);
    assert_eq!(ENTRY_SIZE, 12);
}

#[test]
fn field_type_tags_are_one_to_thirteen() {
    let tags: Vec<u16> = all_field_types().into_iter().map(|t| t.tag()).collect();
    assert_eq!(tags, vec![1, 2, 3, 4, 5, 6, 7, 8, 9, 10, 11, 12, 13]);
}

#[test]
fn field_type_from_tag_inverts_tag() {
    for field_type in all_field_types() {
        assert_eq!(FieldType::from_tag(field_type.tag()), Some(field_type));
    }
    assert_eq!(FieldType::from_tag(12), Some(FieldType::String));
    assert_eq!(FieldType::from_tag(13), Some(FieldType::Blob));
}

#[test]
fn field_type_from_tag_rejects_other_numbers() {
    assert_eq!(FieldType::from_tag(0), None);
    assert_eq!(FieldType::from_tag(14), None);
    assert_eq!(FieldType::from_tag(u16::MAX), None);
}

#[test]
fn new_header_has_current_magic_and_version() {
    let header = FormatHeader::new(48, 21, 256);
    assert_eq!(header.magic, MAGIC);
    assert_eq!(header.version, VERSION);
    assert_eq!(header.header_size, 80);
    assert_eq!(header.offset_table_size, 48);
    assert_eq!(header.data_size, 21);
    assert_eq!(header.var_size, 256);
    assert_eq!(header.checksum, 0);
    assert_eq!(header.reserved, [0u64; 6]);
}

#[test]
fn section_offsets_add_up() {
    let header = FormatHeader::new(48, 21, 256);
    assert_eq!(header.data_section_offset(), 128);
    assert_eq!(header.var_section_offset(), 149);
    assert_eq!(header.total_size(), 405);
    assert_eq!(header.total_size_wide(), 405);
}

#[test]
fn section_offsets_of_an_empty_record() {
    let header = FormatHeader::new(0, 0, 0);
    assert_eq!(header.data_section_offset(), 80);
    assert_eq!(header.var_section_offset(), 80);
    assert_eq!(header.total_size(), 80);
}

#[test]
fn section_offsets_follow_the_header_size_field() {
    let mut header = FormatHeader::new(24, 10, 5);
    header.header_size = 100;
    assert_eq!(header.data_section_offset(), 124);
    assert_eq!(header.var_section_offset(), 134);
    assert_eq!(header.total_size(), 139);
}

#[test]
fn wide_total_size_holds_the_largest_sum() {
    let mut header = FormatHeader::new(u32::MAX, u32::MAX, u32::MAX);
    header.header_size = u32::MAX;
    assert_eq!(header.total_size_wide(), 4 * (u32::MAX as u64));
    assert_eq!(header.total_size_wide(), 17179869180);
}

#[test]
fn validate_accepts_a_new_header() {
    assert_eq!(FormatHeader::new(0, 0, 0).validate(), Ok(()));
    assert_eq!(FormatHeader::new(12, 4, 256).validate(), Ok(()));
}

#[test]
fn validate_looks_at_magic_and_version_only() {
    let mut header = FormatHeader::new(7, u32::MAX, u32::MAX);
    header.header_size = 3;
    header.checksum = 0xDEAD_BEEF;
    header.reserved = [1, 2, 3, 4, 5, 6];
    assert_eq!(header.validate(), Ok(()));
}

#[test]
fn validate_reports_invalid_magic() {
    let mut header = FormatHeader::new(0, 0, 0);
    header.magic = 0xDEADBEEF;
    assert_eq!(
        header.validate(),
        Err(SerializationError::InvalidMagic { expected: 0x42495345, found: 0xDEADBEEF })
    );
}

#[test]
fn validate_reports_unsupported_version() {
    let mut header = FormatHeader::new(0, 0, 0);
    header.version = 2;
    assert_eq!(header.validate(), Err(SerializationError::UnsupportedVersion { version: 2 }));
    header.version = 0;
    assert_eq!(header.validate(), Err(SerializationError::UnsupportedVersion { version: 0 }));
}

#[test]
fn validate_checks_magic_before_version() {
    let mut header = FormatHeader::new(0, 0, 0);
    header.magic = 1;
    header.version = 999;
    assert_eq!(
        header.validate(),
        Err(SerializationError::InvalidMagic { expected: MAGIC, found: 1 })
    );
}

#[test]
fn header_encoding_is_exact() {
    let header = FormatHeader::new(12, 4, 256);
    let mut bytes = Vec::new();
    header.encode_into(&mut bytes);

    let mut expected = vec![
        0x45, 0x53, 0x49, 0x42, // magic
        1, 0, 0, 0, // version
        80, 0, 0, 0, // header size
        12, 0, 0, 0, // offset table size
        4, 0, 0, 0, // data size
        0, 1, 0, 0, // var size
    ];
    expected.extend_from_slice(&[0u8; 8]); // checksum
    expected.extend_from_slice(&[0u8; 48]); // reserved
    assert_eq!(bytes, expected);
    assert_eq!(bytes.len(), 80);
}

#[test]
fn header_encoding_appends_to_what_is_there() {
    let mut bytes = vec![0xAA, 0xBB];
    FormatHeader::new(0, 0, 0).encode_into(&mut bytes);
    assert_eq!(bytes.len(), 82);
    assert_eq!(&bytes[..6], &[0xAA, 0xBB, 0x45, 0x53, 0x49, 0x42]);
}

#[test]
fn header_encoding_covers_checksum_and_reserved() {
    let mut header = FormatHeader::new(1, 2, 3);
    header.checksum = 0x0102030405060708;
    header.reserved = [0x11, 0x22, 0x33, 0x44, 0x55, 0x8877665544332211];
    let mut bytes = Vec::new();
    header.encode_into(&mut bytes);
    assert_eq!(&bytes[24..32], &[8, 7, 6, 5, 4, 3, 2, 1]);
    assert_eq!(&bytes[32..40], &[0x11, 0, 0, 0, 0, 0, 0, 0]);
    assert_eq!(&bytes[64..72], &[0x55, 0, 0, 0, 0, 0, 0, 0]);
    assert_eq!(&bytes[72..80], &[0x11, 0x22, 0x33, 0x44, 0x55, 0x66, 0x77, 0x88]);
}

#[test]
fn header_decoding_inverts_encoding() {
    let mut header = FormatHeader::new(0xAABBCCDD, 0x01020304, 0xFFFFFFFF);
    header.magic = 0x12345678;
    header.version = 0x9ABCDEF0;
    header.header_size = 0x0000FFFF;
    header.checksum = u64::MAX;
    header.reserved = [0, 1, u64::MAX, 0x8000000000000000, 42, 7];
    let mut bytes = Vec::new();
    header.encode_into(&mut bytes);
    assert_eq!(FormatHeader::decode(&bytes), header);
}

#[test]
fn header_decoding_reads_the_first_eighty_bytes() {
    let header = FormatHeader::new(12, 4, 256);
    let mut bytes = Vec::new();
    header.encode_into(&mut bytes);
    bytes.extend_from_slice(&[0xFF; 20]);
    assert_eq!(FormatHeader::decode(&bytes), header);
}

#[test]
fn entry_encoding_is_exact() {
    let entry = OffsetEntry {
        field_id: 0x01020304,
        offset: 0x0A0B0C0D,
        field_type: FieldType::String.tag(),
        size: 0x0102,
    };
    let mut bytes = Vec::new();
    entry.encode_into(&mut bytes);
    assert_eq!(bytes, vec![4, 3, 2, 1, 0x0D, 0x0C, 0x0B, 0x0A, 12, 0, 2, 1]);
}

#[test]
fn entry_decoding_inverts_encoding() {
    let entry = OffsetEntry { field_id: u32::MAX, offset: 7, field_type: 0xABCD, size: u16::MAX };
    let mut bytes = vec![9, 9, 9];
    entry.encode_into(&mut bytes);
    assert_eq!(bytes.len(), 15);
    assert_eq!(OffsetEntry::decode(&bytes, 3), entry);
}

#[test]
fn table_encoding_keeps_the_order() {
    let entries = vec![
        OffsetEntry { field_id: 1, offset: 0, field_type: 7, size: 4 },
        OffsetEntry { field_id: 2, offset: 4, field_type: 8, size: 8 },
    ];
    let mut bytes = Vec::new();
    encode_table_into(&entries, &mut bytes);
    assert_eq!(
        bytes,
        vec![1, 0, 0, 0, 0, 0, 0, 0, 7, 0, 4, 0, 2, 0, 0, 0, 4, 0, 0, 0, 8, 0, 8, 0]
    );
    assert_eq!(OffsetEntry::decode(&bytes, 0), entries[0]);
    assert_eq!(OffsetEntry::decode(&bytes, 12), entries[1]);
}

#[test]
fn table_encoding_of_no_entries_is_empty() {
    let mut bytes = vec![5];
    encode_table_into(&[], &mut bytes);
    assert_eq!(bytes, vec![5]);
}

#[test]
fn find_in_table_returns_the_first_match() {
    let entries = vec![
        OffsetEntry { field_id: 5, offset: 0, field_type: 7, size: 4 },
        OffsetEntry { field_id: 9, offset: 4, field_type: 7, size: 4 },
        OffsetEntry { field_id: 5, offset: 8, field_type: 8, size: 8 },
    ];
    let mut bytes = vec![0xEE; 3];
    encode_table_into(&entries, &mut bytes);
    bytes.extend_from_slice(&[0xEE; 5]);

    assert_eq!(find_in_table(&bytes, 3, 36, 5), Some(entries[0]));
    assert_eq!(find_in_table(&bytes, 3, 36, 9), Some(entries[1]));
    assert_eq!(find_in_table(&bytes, 3, 36, 6), None);
    // A table of two entries does not reach the third.
    assert_eq!(find_in_table(&bytes, 15, 24, 5), Some(entries[2]));
    assert_eq!(find_in_table(&bytes, 3, 12, 9), None);
}

#[test]
fn find_in_table_ignores_a_partial_last_entry() {
    let entries = vec![
        OffsetEntry { field_id: 1, offset: 0, field_type: 7, size: 4 },
        OffsetEntry { field_id: 2, offset: 4, field_type: 7, size: 4 },
    ];
    let mut bytes = Vec::new();
    encode_table_into(&entries, &mut bytes);
    assert_eq!(find_in_table(&bytes, 0, 23, 1), Some(entries[0]));
    assert_eq!(find_in_table(&bytes, 0, 23, 2), None);
    assert_eq!(find_in_table(&bytes, 0, 11, 1), None);
    assert_eq!(find_in_table(&bytes, 0, 0, 1), None);
}

#[test]
fn clamp_keeps_what_fits() {
    assert_eq!(clamp_to_usize(0), 0);
    assert_eq!(clamp_to_usize(405), 405);
    assert_eq!(clamp_to_usize(usize::MAX as u128), usize::MAX);
    assert_eq!(clamp_to_usize(usize::MAX as u128 + 1), usize::MAX);
    assert_eq!(clamp_to_usize(u128::MAX), usize::MAX);
}

#[test]
fn little_endian_reads_are_exact() {
    assert_eq!(decode_le(&[]), 0);
    assert_eq!(decode_le(&[0x2A]), 42);
    assert_eq!(decode_le(&[0x34, 0x12]), 0x1234);
    assert_eq!(decode_le(&[4, 3, 2, 1]), 0x01020304);
    assert_eq!(decode_le(&[8, 7, 6, 5, 4, 3, 2, 1]), 0x0102030405060708);
    assert_eq!(decode_le(&[0xFF; 8]), u64::MAX);
    assert_eq!(read_le(&[9, 9, 0x45, 0x53, 0x49, 0x42, 9], 2, 4), 0x42495345);
    assert_eq!(read_le(&[1, 2, 3], 3, 0), 0);
}

#[test]
fn little_endian_writes_are_exact() {
    assert_eq!(encode_le(0x01020304, 4), vec![4, 3, 2, 1]);
    assert_eq!(encode_le(0x01020304, 2), vec![4, 3]);
    assert_eq!(encode_le(1, 8), vec![1, 0, 0, 0, 0, 0, 0, 0]);
    assert_eq!(encode_le(u64::MAX, 0), Vec::<u8>::new());
    assert_eq!(encode_le(0xAB, 10), vec![0xAB, 0, 0, 0, 0, 0, 0, 0, 0, 0]);
    let mut out = vec![7];
    append_le(&mut out, 0x42495345, 4);
    assert_eq!(out, vec![7, 0x45, 0x53, 0x49, 0x42]);
}

#[test]
fn scalar_widths() {
    assert_eq!(<u8 as Scalar>::width(), 1);
    assert_eq!(<u16 as Scalar>::width(), 2);
    assert_eq!(<u32 as Scalar>::width(), 4);
    assert_eq!(<u64 as Scalar>::width(), 8);
    assert_eq!(<i8 as Scalar>::width(), 1);
    assert_eq!(<i16 as Scalar>::width(), 2);
    assert_eq!(<i32 as Scalar>::width(), 4);
    assert_eq!(<i64 as Scalar>::width(), 8);
}

#[test]
fn scalar_encodings_are_little_endian() {
    assert_eq!(Scalar::encode(&0xABu8), vec![0xAB]);
    assert_eq!(Scalar::encode(&0x1234u16), vec![0x34, 0x12]);
    assert_eq!(Scalar::encode(&30u32), vec![30, 0, 0, 0]);
    assert_eq!(Scalar::encode(&0x0102030405060708u64), vec![8, 7, 6, 5, 4, 3, 2, 1]);
}

#[test]
fn scalar_encodings_of_negative_numbers_are_twos_complement() {
    assert_eq!(Scalar::encode(&-1i8), vec![0xFF]);
    assert_eq!(Scalar::encode(&-128i8), vec![0x80]);
    assert_eq!(Scalar::encode(&-2i16), vec![0xFE, 0xFF]);
    assert_eq!(Scalar::encode(&i32::MIN), vec![0, 0, 0, 0x80]);
    assert_eq!(Scalar::encode(&-1i64), vec![0xFF; 8]);
    assert_eq!(Scalar::encode(&i64::MIN), vec![0, 0, 0, 0, 0, 0, 0, 0x80]);
    assert_eq!(Scalar::encode(&i64::MAX), vec![0xFF, 0xFF, 0xFF, 0xFF, 0xFF, 0xFF, 0xFF, 0x7F]);
}

#[test]
fn scalar_encodings_agree_with_the_standard_library() {
    for value in [0u32, 1, 255, 256, 0x42495345, u32::MAX] {
        assert_eq!(Scalar::encode(&value), value.to_le_bytes().to_vec());
    }
    for value in [i16::MIN, -1, 0, 1, i16::MAX] {
        assert_eq!(Scalar::encode(&value), value.to_le_bytes().to_vec());
    }
    for value in [i64::MIN, -12345, 0, 12345, i64::MAX] {
        assert_eq!(Scalar::encode(&value), value.to_le_bytes().to_vec());
        assert_eq!(<i64 as Scalar>::decode(&value.to_le_bytes()), value);
    }
    for value in [u64::MIN, 12345, u64::MAX] {
        assert_eq!(<u64 as Scalar>::decode(&value.to_le_bytes()), value);
    }
}

#[test]
fn scalar_decoding_inverts_encoding() {
    for value in [i8::MIN, -1, 0, 1, i8::MAX] {
        assert_eq!(<i8 as Scalar>::decode(&Scalar::encode(&value)), value);
    }
    for value in [u16::MIN, 0x00FF, 0xFF00, u16::MAX] {
        assert_eq!(<u16 as Scalar>::decode(&Scalar::encode(&value)), value);
    }
    for value in [i32::MIN, -2147483647, -1, 0, 1, i32::MAX] {
        assert_eq!(<i32 as Scalar>::decode(&Scalar::encode(&value)), value);
    }
    assert_eq!(<u8 as Scalar>::decode(&[200]), 200);
    assert_eq!(<i16 as Scalar>::decode(&[0x00, 0x80]), -32768);
    assert_eq!(<i32 as Scalar>::decode(&[0xFF, 0xFF, 0xFF, 0x7F]), i32::MAX);
}

#[test]
fn encodings_match_the_host_layout_on_little_endian_hosts() {
    if u16::from_ne_bytes([1, 0]) != 1 {
        return;
    }
    assert_eq!(Scalar::encode(&12345u64), bytemuck::bytes_of(&12345u64).to_vec());
    assert_eq!(Scalar::encode(&-7i32), bytemuck::bytes_of(&-7i32).to_vec());
    assert_eq!(<u32 as Scalar>::decode(&[1, 2, 3, 4]), bytemuck::pod_read_unaligned(&[1, 2, 3, 4]));

    let header = FormatHeader::new(48, 21, 256);
    let mut bytes = Vec::new();
    header.encode_into(&mut bytes);
    let fields = [header.magic, header.version, header.header_size, 48, 21, 256];
    assert_eq!(&bytes[..24], bytemuck::bytes_of(&fields));
    assert_eq!(&bytes[24..32], bytemuck::bytes_of(&header.checksum));
    assert_eq!(&bytes[32..], bytemuck::cast_slice::<u64, u8>(&header.reserved));
}
