use intelhexlib::error::IntelHexErrorKind;
use intelhexlib::record::{Record, RecordType};

/// Returns valid instances of Record and corresponding str representation
fn get_valid_records() -> [(Record, &'static str); 5] {
    [
        (
            Record {
                length: 0x10,
                address: 0x0100,
                rtype: RecordType::Data,
                data: vec![
                    0x21, 0x46, 0x01, 0x36, 0x01, 0x21, 0x47, 0x01, 0x36, 0x00, 0x7E, 0xFE, 0x09,
                    0xD2, 0x19, 0x01,
                ],
                checksum: 0x40,
            },
            ":10010000214601360121470136007EFE09D2190140",
        ),
        (
            Record {
                length: 0x10,
                address: 0x0110,
                rtype: RecordType::Data,
                data: vec![
                    0x21, 0x46, 0x01, 0x7E, 0x17, 0xC2, 0x00, 0x01, 0xFF, 0x5F, 0x16, 0x00, 0x21,
                    0x48, 0x01, 0x19,
                ],
                checksum: 0x28,
            },
            ":100110002146017E17C20001FF5F16002148011928",
        ),
        (
            Record {
                length: 0x00,
                address: 0x0000,
                rtype: RecordType::EndOfFile,
                data: vec![],
                checksum: 0xFF,
            },
            ":00000001FF",
        ),
        (
            Record {
                length: 0x02,
                address: 0x0000,
                rtype: RecordType::ExtendedSegmentAddress,
                data: vec![0x12, 0x00],
                checksum: 0xEA,
            },
            ":020000021200EA",
        ),
        (
            Record {
                length: 0x02,
                address: 0x0000,
                rtype: RecordType::ExtendedLinearAddress,
                data: vec![0x00, 0x03],
                checksum: 0xF7,
            },
            ":020000040003F7",
        ),
    ]
}

/// Returns invalid record strings and corresponding errors
fn get_invalid_str_records() -> [(&'static str, IntelHexErrorKind); 9] {
    [
        // Removed ':' from record str
        ("00000001FF", IntelHexErrorKind::MissingStartCode),
        // Payload shorter that record length byte
        (":100000000000FF", IntelHexErrorKind::RecordInvalidPayloadLength),
        // Payload longer that record length byte
        (":02000000000000FF", IntelHexErrorKind::RecordInvalidPayloadLength),
        // EOF record with fewer chars
        (":0000FF", IntelHexErrorKind::RecordTooShort),
        // EOF record with extra '0' added
        (":000000001FF", IntelHexErrorKind::RecordNotEvenLength),
        // Char 'Z' is not a hex digit
        (":0000000ZFF", IntelHexErrorKind::ContainsInvalidCharacters),
        // Checksum wrong - should be 0xF0
        (
            ":1000000000000000000000000000000000000000AA",
            IntelHexErrorKind::RecordChecksumMismatch(0xF0, 0xAA),
        ),
        // Address non-zero for extended segment addr record
        (
            ":020100021200EA",
            IntelHexErrorKind::RecordAddressInvalidForType(
                RecordType::ExtendedSegmentAddress,
                0,
                0x0100,
            ),
        ),
        // Address non-zero for extended linear addr record
        (
            ":020100041200EA",
            IntelHexErrorKind::RecordAddressInvalidForType(
                RecordType::ExtendedLinearAddress,
                0,
                0x0100,
            ),
        ),
    ]
}

#[test]
fn test_parse_valid_record_types() {
    assert_eq!(RecordType::parse("00"), Ok(RecordType::Data));
    assert_eq!(RecordType::parse("01"), Ok(RecordType::EndOfFile));
    assert_eq!(RecordType::parse("02"), Ok(RecordType::ExtendedSegmentAddress));
    assert_eq!(RecordType::parse("03"), Ok(RecordType::StartSegmentAddress));
    assert_eq!(RecordType::parse("04"), Ok(RecordType::ExtendedLinearAddress));
    assert_eq!(RecordType::parse("05"), Ok(RecordType::StartLinearAddress));
}

#[test]
fn test_parse_invalid_record_type() {
    assert_eq!(RecordType::parse("0"), Err(IntelHexErrorKind::InvalidRecordType));
    assert_eq!(RecordType::parse("1"), Err(IntelHexErrorKind::InvalidRecordType));
    assert_eq!(RecordType::parse("06"), Err(IntelHexErrorKind::InvalidRecordType));
    assert_eq!(RecordType::parse("AB"), Err(IntelHexErrorKind::InvalidRecordType));
    assert_eq!(RecordType::parse("FF"), Err(IntelHexErrorKind::InvalidRecordType));
}

#[test]
fn test_calculate_checksum() {
    for (rec, rec_str) in get_valid_records() {
        // Strip information not used for checksum calculation
        let trimmed_record = &rec_str[1..rec_str.len() - 2];

        // Convert to byte Vec
        let bytes: Vec<u8> = (0..trimmed_record.len())
            .step_by(2)
            .map(|i| u8::from_str_radix(&trimmed_record[i..i + 2], 16).unwrap())
            .collect();

        assert_eq!(rec.checksum, Record::calculate_checksum(&bytes));
    }
}

#[test]
fn test_calculate_checksum_from_self() {
    for (record, _) in get_valid_records() {
        assert_eq!(record.checksum, Record::calculate_checksum_from_self(&record));
    }
}

#[test]
fn test_parse_valid_records() {
    for (rec, rec_str) in get_valid_records() {
        assert_eq!(Record::parse(rec_str.as_bytes()).unwrap(), rec);
    }
}

#[test]
fn test_parse_invalid_records() {
    let records_and_errors = get_invalid_str_records();
    for (record, expected_error) in records_and_errors {
        assert_eq!(Record::parse(record.as_bytes()).unwrap_err(), expected_error);
    }
}

#[test]
fn test_create_valid_records() {
    // Data record
    let data: [u8; 4] = [0, 1, 2, 3];
    let res = Record::create(16, RecordType::Data, &data);
    let expected_rec_str = ":0400100000010203E6";
    assert_eq!(res.unwrap_or("".to_string()), expected_rec_str);

    // Extended Linear Address record
    let data: [u8; 2] = [0x11, 0x22];
    let res = Record::create(0, RecordType::ExtendedLinearAddress, &data);
    let expected_rec_str = ":020000041122C7";
    assert_eq!(res.unwrap_or("".to_string()), expected_rec_str);

    // End Of File record
    let res = Record::create(0, RecordType::EndOfFile, &[]);
    let expected_rec_str = ":00000001FF";
    assert_eq!(res.unwrap_or("".to_string()), expected_rec_str);

    // Start Linear Address record
    let data: [u8; 4] = [0x10, 0x43, 0xFF, 0xAA];
    let res = Record::create(0, RecordType::StartLinearAddress, &data);
    let expected_rec_str = ":040000051043FFAAFB";
    assert_eq!(res.unwrap_or("".to_string()), expected_rec_str);

    // Start Segment Address record
    let data: [u8; 4] = [0x10, 0x43, 0xFF, 0xAA];
    let res = Record::create(0, RecordType::StartSegmentAddress, &data);
    let expected_rec_str = ":040000031043FFAAFD";
    assert_eq!(res.unwrap_or("".to_string()), expected_rec_str);
}

#[test]
fn test_create_invalid_records() {
    // Data record
    let data = [0; 256];
    let res = Record::create(0, RecordType::Data, &data);
    assert_eq!(res.unwrap_err(), IntelHexErrorKind::RecordTooLong);

    // Extended Linear Address record
    let data: [u8; 2] = [0x11, 0x22];
    let res = Record::create(16, RecordType::ExtendedLinearAddress, &data);
    assert_eq!(
        res.unwrap_err(),
        IntelHexErrorKind::RecordAddressInvalidForType(RecordType::ExtendedLinearAddress, 0, 16)
    );

    // End Of File record
    // No invalid options - always returns the correct String

    // Start Linear Address record
    let data: [u8; 3] = [0x10, 0x43, 0xFF];
    let res = Record::create(0, RecordType::StartLinearAddress, &data);
    assert_eq!(
        res.unwrap_err(),
        IntelHexErrorKind::RecordLengthInvalidForType(RecordType::StartLinearAddress, 4, data.len())
    );

    // Start Segment Address record
    let data: [u8; 4] = [0x10, 0x43, 0xFF, 0xAA];
    let res = Record::create(0xFFFF, RecordType::StartSegmentAddress, &data);
    assert_eq!(
        res.unwrap_err(),
        IntelHexErrorKind::RecordAddressInvalidForType(RecordType::StartSegmentAddress, 0, 0xFFFF)
    );
}
