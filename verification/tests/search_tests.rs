use intelhexlib::search::search_bmh;
use intelhexlib::{search, IntelHex, SearchType};

#[test]
fn test_search_bytes() {
    // Arrange
    let start_addr = 0x1000;
    let pattern = vec![0xAA, 0xBB, 0xCC, 0xDD, 0xEE];

    let mut random_bytes: Vec<u8> = rand::random_iter().take(1000).collect();
    random_bytes[203..208].copy_from_slice(&pattern); // replace elements with the pattern

    let mut ih = IntelHex::new();
    ih.insert_data(start_addr, &random_bytes).unwrap();

    // Act
    let res = search(&ih, &SearchType::Hex(pattern));

    // Assert
    assert_eq!(res, vec![start_addr + 203]);
}

#[test]
fn test_search_ascii_literals() {
    // Arrange
    let start_addr = 0x1000;
    let pattern = vec![0x32, 0x30, 0x2E, 0x37, 0x31]; // "20.71" in ASCII

    let mut random_bytes: Vec<u8> = rand::random_iter().take(1000).collect();
    random_bytes[203..208].copy_from_slice(&pattern); // replace elements with the pattern

    let mut ih = IntelHex::new();
    ih.insert_data(start_addr, &random_bytes).unwrap();

    // Act
    let res = search(&ih, &SearchType::Ascii("20.71".to_string()));

    // Assert
    assert_eq!(res, vec![start_addr + 203]);
}

#[test]
fn test_search_ascii_regex() {
    // Arrange
    let start_addr = 0x1000;
    let pattern = vec![0x37, 0x37, 0x4C, 0x6F, 0x4C]; // "77LoL" in ASCII

    let mut random_bytes: Vec<u8> = rand::random_iter().take(1000).collect();
    random_bytes[203..208].copy_from_slice(&pattern); // replace elements with the pattern

    let mut ih = IntelHex::new();
    ih.insert_data(start_addr, &random_bytes).unwrap();

    // Act
    let res = search(&ih, &SearchType::Regex(r"\d{2}\D{2}L".to_string()));

    // Assert
    assert_eq!(res, vec![start_addr + 203]);
}

#[test]
fn test_search_does_not_cross_gaps() {
    // Two blocks whose concatenated bytes would match, separated by a gap:
    // the pattern must not be reported.
    let mut ih = IntelHex::new();
    ih.insert_data(0x100, &[0xAA, 0xBB]).unwrap();
    ih.insert_data(0x103, &[0xCC, 0xDD]).unwrap();

    let res = search(&ih, &SearchType::Hex(vec![0xAA, 0xBB, 0xCC, 0xDD]));
    assert_eq!(res, Vec::<usize>::new());

    // The same bytes in one contiguous block do match.
    let mut ih2 = IntelHex::new();
    ih2.insert_data(0x100, &[0xAA, 0xBB, 0xCC, 0xDD]).unwrap();
    let res2 = search(&ih2, &SearchType::Hex(vec![0xAA, 0xBB, 0xCC, 0xDD]));
    assert_eq!(res2, vec![0x100]);
}

#[test]
fn test_search_multiple_matches_ascending() {
    let mut ih = IntelHex::new();
    ih.insert_data(0x10, &[0x01, 0x02, 0x01, 0x02, 0x01]).unwrap();
    ih.insert_data(0x20, &[0x01, 0x02]).unwrap();

    let res = search(&ih, &SearchType::Hex(vec![0x01, 0x02]));
    assert_eq!(res, vec![0x10, 0x12, 0x20]);
}

#[test]
fn test_search_empty_pattern_no_matches() {
    let mut ih = IntelHex::new();
    ih.insert_data(0x0, &[1, 2, 3]).unwrap();
    assert_eq!(search(&ih, &SearchType::Hex(vec![])), Vec::<usize>::new());
}

#[test]
fn test_search_regex_invalid_pattern_no_matches() {
    let mut ih = IntelHex::new();
    ih.insert_data(0x0, &[b'a', b'b', b'c']).unwrap();
    // An unclosed group does not compile: the search reports nothing.
    assert_eq!(search(&ih, &SearchType::Regex("(".to_string())), Vec::<usize>::new());
    // A valid pattern over the same bytes does match, at a non-zero offset.
    assert_eq!(search(&ih, &SearchType::Regex("bc".to_string())), vec![1]);
}

#[test]
fn test_search_regex_per_block_addresses() {
    let mut ih = IntelHex::new();
    ih.insert_data(0x100, b"xxabyy").unwrap();
    ih.insert_data(0x200, b"ab").unwrap();

    let res = search(&ih, &SearchType::Regex("ab".to_string()));
    assert_eq!(res, vec![0x102, 0x200]);
}

#[test]
fn test_search_bmh_entry_windows() {
    // Entries are (address, byte) pairs; windows run over consecutive
    // entries, and the address reported is the window's first entry's.
    let h: Vec<(usize, u8)> = vec![(0, 1), (1, 2), (2, 3), (10, 1), (11, 2)];
    assert_eq!(search_bmh(&h, &[1, 2]), vec![0, 10]);
    assert_eq!(search_bmh(&h, &[2, 3]), vec![1]);
    assert_eq!(search_bmh(&h, &[9]), Vec::<usize>::new());
    assert_eq!(search_bmh(&h, &[]), Vec::<usize>::new());
    assert_eq!(search_bmh(&h, &[1, 2, 3, 1, 2, 9]), Vec::<usize>::new());
}

#[test]
fn test_search_bmh_overlapping_and_repeated() {
    let bytes = b"abracadabra";
    let h: Vec<(usize, u8)> = bytes.iter().copied().enumerate().collect();
    assert_eq!(search_bmh(&h, b"abra"), vec![0, 7]);
    assert_eq!(search_bmh(&h, b"a"), vec![0, 3, 5, 7, 10]);
    assert_eq!(search_bmh(&h, b"aa"), Vec::<usize>::new());

    // Overlapping occurrences are all reported.
    let h2: Vec<(usize, u8)> = b"aaaa".iter().copied().enumerate().collect();
    assert_eq!(search_bmh(&h2, b"aa"), vec![0, 1, 2]);
}
