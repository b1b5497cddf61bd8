use intelhexlib::session::{
    detect_file_kind, format_from_extension, format_with_separators, parse_address, parse_hex_str,
    parse_str_into_bytes, Editor, Endianness, FileKind, JumpTo, Popup, PopupType, SaveFormat,
    Search, Selection,
};

#[test]
fn test_selection_within_range_both_directions() {
    let mut sel = Selection::default();
    assert!(!sel.is_addr_within_range(5));

    sel.update(10);
    sel.update(20);
    assert!(sel.is_addr_within_range(10));
    assert!(sel.is_addr_within_range(15));
    assert!(sel.is_addr_within_range(20));
    assert!(!sel.is_addr_within_range(21));

    // An inverted (right-to-left) selection covers the same addresses.
    let mut sel2 = Selection::default();
    sel2.update(20);
    sel2.update(10);
    assert!(sel2.is_addr_within_range(15));
    assert!(!sel2.is_addr_within_range(9));
}

#[test]
fn test_selection_update_and_clear() {
    let mut sel = Selection::default();
    sel.update(7);
    assert!(sel.is_single_byte());
    sel.update(9);
    assert!(!sel.is_single_byte());

    // A release followed by an update starts a fresh selection.
    sel.released = true;
    sel.update(42);
    assert!(sel.is_single_byte());
    assert!(sel.is_addr_within_range(42));

    sel.clear();
    assert!(!sel.is_addr_within_range(42));
    assert!(!sel.is_single_byte());
}

#[test]
fn test_editor_clear_and_addr() {
    let mut ed = Editor::default();
    ed.in_progress = true;
    ed.addr = 0x33;
    ed.buffer.push('A');
    assert!(ed.is_addr_same(0x33));
    ed.clear();
    assert!(!ed.in_progress);
    assert!(ed.is_addr_same(0));
    assert!(ed.buffer.is_empty());
}

#[test]
fn test_jumpto_and_popup() {
    let mut j = JumpTo::default();
    j.loose_focus();
    assert!(j.loose_focus);

    assert_eq!(PopupType::Error.title(), "Error");
    assert_eq!(PopupType::About.title(), "About");
    assert_eq!(PopupType::ReAddr.title(), "Re-Address");

    let mut p = Popup::default();
    p.active = true;
    p.ptype = Some(PopupType::Error);
    p.clear();
    assert!(!p.active);
    assert!(p.ptype.is_none());
}

#[test]
fn test_search_state_redo_restores_last() {
    let mut s = Search::default();
    s.last.input.push_str("deadbeef");
    s.last.is_ascii = false;
    s.results = vec![1, 2, 3];
    s.idx = 2;

    s.redo();

    assert_eq!(s.current.input, "deadbeef");
    assert!(s.results.is_empty());
    assert!(s.force);
    assert_eq!(s.idx, 0);

    s.loose_focus();
    assert!(s.loose_focus);
}

#[test]
fn test_endianness_default() {
    assert_eq!(Endianness::default(), Endianness::Little);
}

#[test]
fn test_detect_file_kind() {
    assert_eq!(detect_file_kind(b""), FileKind::Unknown);
    assert_eq!(detect_file_kind(b"\x7fELF\x02\x01"), FileKind::Elf);
    assert_eq!(detect_file_kind(b":00000001FF"), FileKind::Hex);
    assert_eq!(detect_file_kind(b"\x00\x01\x02"), FileKind::Bin);
}

#[test]
fn test_format_from_extension() {
    assert_eq!(format_from_extension("hex"), Some(SaveFormat::Hex));
    assert_eq!(format_from_extension("HEX"), Some(SaveFormat::Hex));
    assert_eq!(format_from_extension("bin"), Some(SaveFormat::Bin));
    assert_eq!(format_from_extension("BiN"), Some(SaveFormat::Bin));
    assert_eq!(format_from_extension("elf"), None);
    assert_eq!(format_from_extension(""), None);
}

#[test]
fn test_parse_address_forms() {
    assert_eq!(parse_address("0x1000"), Some(0x1000));
    assert_eq!(parse_address("0XFF"), Some(0xFF));
    assert_eq!(parse_address("ff"), Some(0xFF));
    assert_eq!(parse_address("0x"), None);
    assert_eq!(parse_address(""), None);
    assert_eq!(parse_address("xyz"), None);
    assert_eq!(parse_hex_str("0x20"), Ok(0x20));
    assert_eq!(parse_hex_str("g"), Err(()));
}

#[test]
fn test_parse_str_into_bytes_hex_and_ascii() {
    assert_eq!(parse_str_into_bytes("AABB01", false), Some(vec![0xAA, 0xBB, 0x01]));
    assert_eq!(parse_str_into_bytes("AAB", false), None);
    assert_eq!(parse_str_into_bytes("ZZ", false), None);
    assert_eq!(parse_str_into_bytes("AB", true), Some(vec![0x41, 0x42]));
}

#[test]
fn test_format_with_separators() {
    assert_eq!(format_with_separators("1234567"), "1,234,567");
    assert_eq!(format_with_separators("-1234"), "-1,234");
    assert_eq!(format_with_separators("12"), "12");
    assert_eq!(format_with_separators(""), "");
}
