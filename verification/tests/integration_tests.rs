use intelhexlib::error::{IntelHexError, IntelHexErrorKind};
use intelhexlib::IntelHex;

#[test]
fn integration_tests_test_hex_parsing_returns_error() {
    // A first line whose checksum field holds 0xFF where the record's
    // fields call for 0x55.
    let res = IntelHex::from_hex(b":01000000AAFF");

    // Check the error
    match res {
        Err(e) => {
            assert_eq!(
                e,
                IntelHexError::ParseRecordError(
                    IntelHexErrorKind::RecordChecksumMismatch(0x55, 0xFF),
                    1
                )
            );
        }
        Ok(_) => panic!("Expected an error, but got Ok"),
    }
}

#[test]
fn test_load_two_line_file() {
    // Loading the classic two-line file yields exactly one block of 16
    // bytes starting at 0x0100.
    let text = b":10010000214601360121470136007EFE09D2190140\n:00000001FF";
    let ih = IntelHex::from_hex(text).unwrap();

    let blocks = ih.iter();
    assert_eq!(blocks.len(), 1);
    assert_eq!(blocks[0].0, 0x0100);
    assert_eq!(
        blocks[0].1,
        vec![0x21, 0x46, 0x01, 0x36, 0x01, 0x21, 0x47, 0x01, 0x36, 0x00, 0x7E, 0xFE, 0x09, 0xD2, 0x19, 0x01]
    );
    assert_eq!(ih.read_byte(0x0100), Some(0x21));
    assert_eq!(ih.read_byte(0x0110), None);
}

#[test]
fn test_write_then_load_round_trip() {
    // An image serialized as hex text and loaded back holds the same bytes.
    let mut ih = IntelHex::new();
    ih.insert_data(0x0100, &[0x21, 0x46, 0x01, 0x36]).unwrap();
    ih.insert_data(0x2000, &[0xDE, 0xAD, 0xBE, 0xEF]).unwrap();

    let text = ih.write_hex();
    let ih2 = IntelHex::from_hex(text.as_bytes()).unwrap();

    assert_eq!(ih2.bytes(), ih.bytes());
}

#[test]
fn test_load_then_write_reproduces_canonical_file() {
    // A file in the serializer's own shape (extended linear address record
    // first, 16-byte data records) comes back byte for byte.
    let text = ":020000040000FA\n:10010000214601360121470136007EFE09D2190140\n:00000001FF";
    let ih = IntelHex::from_hex(text.as_bytes()).unwrap();
    assert_eq!(ih.write_hex(), text);
}

#[test]
fn test_write_hex_splits_at_segment_boundary() {
    // A run crossing a 64 KiB boundary is split, with a new extended
    // linear address record in between.
    let mut ih = IntelHex::new();
    ih.insert_data(0xFFFE, &[0x11, 0x22, 0x33, 0x44]).unwrap();
    let text = ih.write_hex();
    assert_eq!(
        text,
        ":020000040000FA\n:02FFFE001122CE\n:020000040001F9\n:02000000334487\n:00000001FF"
    );
}

#[test]
fn test_write_hex_respects_max_payload_size() {
    let mut ih = IntelHex::new();
    ih.insert_data(0, &[1, 2, 3, 4, 5]).unwrap();
    ih.set_max_payload_size(2).unwrap();
    let text = ih.write_hex();
    assert_eq!(
        text,
        ":020000040000FA\n:020000000102FB\n:020002000304F5\n:0100040005F6\n:00000001FF"
    );
}

#[test]
fn test_start_record_passed_through_verbatim() {
    let text = ":040000051043FFAAFB\n:0100000022DD\n:00000001FF";
    let ih = IntelHex::from_hex(text.as_bytes()).unwrap();
    assert_eq!(ih.start_addr.as_deref(), Some(b":040000051043FFAAFB".as_slice()));
    assert_eq!(ih.write_hex(), ":040000051043FFAAFB\n:020000040000FA\n:0100000022DD\n:00000001FF");
}

#[test]
fn test_duplicate_start_record_rejected() {
    let text = ":040000051043FFAAFB\n:040000051043FFAAFB\n:00000001FF";
    let res = IntelHex::from_hex(text.as_bytes());
    assert_eq!(
        res.unwrap_err(),
        IntelHexError::ParseRecordError(IntelHexErrorKind::DuplicateStartAddress, 2)
    );
}

#[test]
fn test_overlapping_record_rejected() {
    let overlapping = ":020000001122CB\n:02000100334486\n:00000001FF";
    let res = IntelHex::from_hex(overlapping.as_bytes());
    assert_eq!(
        res.unwrap_err(),
        IntelHexError::ParseRecordError(IntelHexErrorKind::RecordAddressOverlap(0x1), 2)
    );
}

#[test]
fn test_extended_linear_address_offsets_data() {
    let text = ":020000040001F9\n:0100000022DD\n:00000001FF";
    let ih = IntelHex::from_hex(text.as_bytes()).unwrap();
    assert_eq!(ih.read_byte(0x10000), Some(0x22));
    assert_eq!(ih.read_byte(0x0), None);
}

#[test]
fn test_extended_segment_address_offsets_data() {
    // Segment value 0x1200 shifts subsequent data by 0x12000.
    let text = ":020000021200EA\n:0100000022DD\n:00000001FF";
    let ih = IntelHex::from_hex(text.as_bytes()).unwrap();
    assert_eq!(ih.read_byte(0x12000), Some(0x22));
}

#[test]
fn test_blank_lines_and_carriage_returns_tolerated() {
    let text = ":0100000022DD\r\n\n:00000001FF\r";
    let ih = IntelHex::from_hex(text.as_bytes()).unwrap();
    assert_eq!(ih.read_byte(0), Some(0x22));
}

#[test]
fn test_adjacent_inserts_merge_into_one_block() {
    // Append, prepend and bridge inserts leave a single maximal block:
    // no two blocks are ever address-adjacent.
    let mut ih = IntelHex::new();
    ih.insert_data(0x100, &[1, 2, 3, 4]).unwrap();
    ih.insert_data(0x108, &[9, 10, 11, 12]).unwrap();
    assert_eq!(ih.iter().len(), 2);

    // The bridge: filling the hole merges all three runs.
    ih.insert_data(0x104, &[5, 6, 7, 8]).unwrap();
    let blocks = ih.iter();
    assert_eq!(blocks.len(), 1);
    assert_eq!(blocks[0].0, 0x100);
    assert_eq!(blocks[0].1, vec![1, 2, 3, 4, 5, 6, 7, 8, 9, 10, 11, 12]);
}

#[test]
fn test_update_buffer_slice_atomic_on_failure() {
    // One invalid address among valid ones leaves every byte unchanged.
    let mut ih = IntelHex::new();
    ih.insert_data(0x10, &[1, 2, 3]).unwrap();

    let res = ih.update_buffer_slice(&[(0x10, 0xAA), (0x11, 0xBB), (0x99, 0xCC)]);

    assert_eq!(
        res,
        Err(IntelHexError::UpdateError(IntelHexErrorKind::InvalidAddress(0x99)))
    );
    assert_eq!(ih.read_byte(0x10), Some(1));
    assert_eq!(ih.read_byte(0x11), Some(2));
    assert_eq!(ih.read_byte(0x12), Some(3));
}

#[test]
fn test_update_range_within_one_block() {
    let mut ih = IntelHex::new();
    ih.insert_data(0x10, &[1, 2, 3, 4]).unwrap();
    assert!(ih.update_range(0x11, &[9, 9]).is_ok());
    assert_eq!(ih.read_range(0x10, 4), Some(vec![1, 9, 9, 4]));
}

#[test]
fn test_update_range_across_gap_fails_atomically() {
    let mut ih = IntelHex::new();
    ih.insert_data(0x10, &[1, 2]).unwrap();
    ih.insert_data(0x14, &[3, 4]).unwrap();
    let res = ih.update_range(0x11, &[9, 9, 9, 9]);
    assert_eq!(
        res,
        Err(IntelHexError::UpdateError(IntelHexErrorKind::InvalidAddress(0x11)))
    );
    assert_eq!(ih.read_byte(0x11), Some(2));
    assert_eq!(ih.read_byte(0x14), Some(3));
}

#[test]
fn test_read_range_requires_single_block() {
    let mut ih = IntelHex::new();
    ih.insert_data(0x10, &[1, 2]).unwrap();
    ih.insert_data(0x14, &[3, 4]).unwrap();
    assert_eq!(ih.read_range(0x10, 2), Some(vec![1, 2]));
    assert_eq!(ih.read_range(0x10, 5), None);
}

#[test]
fn test_read_range_safe_marks_gaps() {
    let mut ih = IntelHex::new();
    ih.insert_data(0x10, &[1, 2]).unwrap();
    ih.insert_data(0x14, &[3]).unwrap();
    let r = ih.read_range_safe(0x10, 6);
    assert_eq!(r, vec![Some(1), Some(2), None, None, Some(3), None]);
}

#[test]
fn test_relocate_overflow_boundary() {
    // An image spanning [0x0000_0000, 0x0000_FFFF] relocated to
    // 0xFFFF_0001 fails reporting 0xFFFF_0000 as the largest allowed
    // start; relocating to exactly 0xFFFF_0000 succeeds.
    let mut ih = IntelHex::new();
    ih.insert_data(0x0000_0000, &vec![0xAB; 0x10000]).unwrap();

    let res = ih.relocate(0xFFFF_0001);
    assert_eq!(
        res,
        Err(IntelHexError::UpdateError(IntelHexErrorKind::RelocateAddressOverflow(0xFFFF_0000)))
    );

    assert!(ih.relocate(0xFFFF_0000).is_ok());
    assert_eq!(ih.get_min_addr(), Some(0xFFFF_0000));
    assert_eq!(ih.get_max_addr(), Some(0xFFFF_FFFF));
}

#[test]
fn test_relocate_empty_image_fails() {
    let mut ih = IntelHex::new();
    assert_eq!(
        ih.relocate(0x100),
        Err(IntelHexError::UpdateError(IntelHexErrorKind::IntelHexInstanceEmpty))
    );
}

#[test]
fn test_relocate_start_beyond_ceiling_fails() {
    let mut ih = IntelHex::new();
    ih.insert_data(0, &[1]).unwrap();
    assert_eq!(
        ih.relocate(0x1_0000_0000),
        Err(IntelHexError::UpdateError(IntelHexErrorKind::InvalidAddress(0x1_0000_0000)))
    );
}

#[test]
fn test_write_bin_fills_gaps() {
    let mut ih = IntelHex::new();
    ih.insert_data(0x10, &[1, 2]).unwrap();
    ih.insert_data(0x14, &[3]).unwrap();
    assert_eq!(ih.write_bin(0xFF), vec![1, 2, 0xFF, 0xFF, 3]);
    assert_eq!(ih.write_bin(0x00), vec![1, 2, 0x00, 0x00, 3]);
}

#[test]
fn test_bin_round_trip_across_fill() {
    // A gapless image written as binary and loaded back at a base address
    // holds the same content, whatever the fill byte.
    let data = [0x10, 0x20, 0x30, 0x40];
    let ih = IntelHex::from_bin(&data, 0x1000);
    for fill in [0x00u8, 0xFFu8] {
        let b = ih.write_bin(fill);
        assert_eq!(b, data.to_vec());
        let ih2 = IntelHex::from_bin(&b, 0x2000);
        for k in 0..data.len() {
            assert_eq!(ih2.read_byte(0x2000 + k), ih.read_byte(0x1000 + k));
        }
    }
}

#[test]
fn test_merge_later_input_wins() {
    let mut a = IntelHex::new();
    a.insert_data(0x10, &[1, 2, 3]).unwrap();
    let mut b = IntelHex::new();
    b.insert_data(0x11, &[9]).unwrap();
    b.insert_data(0x20, &[7]).unwrap();

    a.merge(&b);

    assert_eq!(a.read_byte(0x10), Some(1));
    assert_eq!(a.read_byte(0x11), Some(9));
    assert_eq!(a.read_byte(0x12), Some(3));
    assert_eq!(a.read_byte(0x20), Some(7));
}

#[test]
fn test_checksum_flip_rejected_with_computed_values() {
    // Flipping the checksum field of a valid record fails with the
    // expected and actual values reported.
    let good = b":0100000022DD";
    assert!(IntelHex::from_hex(good).is_ok());
    let flipped = b":0100000022DC";
    assert_eq!(
        IntelHex::from_hex(flipped).unwrap_err(),
        IntelHexError::ParseRecordError(IntelHexErrorKind::RecordChecksumMismatch(0xDD, 0xDC), 1)
    );
}

#[test]
fn test_load_bin_and_clear() {
    let mut ih = IntelHex::new();
    ih.load_bin(&[1, 2, 3], 0x100);
    assert_eq!(ih.size, 3);
    assert_eq!(ih.read_byte(0x100), Some(1));
    assert_eq!(ih.to_btree_map(), vec![(0x100, 1), (0x101, 2), (0x102, 3)]);
    ih.clear();
    assert_eq!(ih.size, 0);
    assert_eq!(ih.read_byte(0x100), None);
}

#[test]
fn test_bench_hook_parses() {
    let mut ih = IntelHex::new();
    IntelHex::bench_priv_parse(&mut ih, b":0100000022DD\n:00000001FF");
    assert_eq!(ih.read_byte(0), Some(0x22));
}

#[test]
fn test_parse_error_reports_source_line() {
    // A blank first line shifts the offending line to source line 2; the
    // reported index is its position in the file, blank lines included.
    let res = IntelHex::from_hex(b"\n00000001FF");
    assert_eq!(
        res.unwrap_err(),
        IntelHexError::ParseRecordError(IntelHexErrorKind::MissingStartCode, 2)
    );

    // A lone carriage-return line counts the same way.
    let res2 = IntelHex::from_hex(b"\r\n\n:0100000022DC");
    assert_eq!(
        res2.unwrap_err(),
        IntelHexError::ParseRecordError(IntelHexErrorKind::RecordChecksumMismatch(0xDD, 0xDC), 3)
    );
}
