use json_lib::file::file::Format;

#[test]
fn test_detect_utf8() {
    assert!(matches!(Format::detect(b"{}[]"), Format::Utf8));
    assert!(matches!(Format::detect(b""), Format::Utf8));
}

#[test]
fn test_detect_utf8_bom() {
    assert!(matches!(Format::detect(&[0xEF, 0xBB, 0xBF, 0x7B]), Format::Utf8bom));
}

#[test]
fn test_detect_utf16_le() {
    assert!(matches!(Format::detect(&[0xFF, 0xFE, 0x7B, 0x00]), Format::Utf16le));
}

#[test]
fn test_detect_utf16_be() {
    assert!(matches!(Format::detect(&[0xFE, 0xFF, 0x00, 0x7B]), Format::Utf16be));
}

#[test]
fn test_detect_utf32_le() {
    assert!(matches!(Format::detect(&[0xFF, 0xFE, 0x00, 0x00]), Format::Utf32le));
}

#[test]
fn test_detect_utf32_be() {
    assert!(matches!(Format::detect(&[0x00, 0x00, 0xFE, 0xFF]), Format::Utf32be));
}

#[test]
fn test_detect_short_prefix() {
    assert!(matches!(Format::detect(&[0xFF]), Format::Utf8));
    assert!(matches!(Format::detect(&[0xFF, 0xFE]), Format::Utf16le));
}

#[test]
fn test_get_bom_round() {
    assert_eq!(Format::Utf8.get_bom(), Vec::<u8>::new());
    assert_eq!(Format::Utf8bom.get_bom(), vec![0xEF, 0xBB, 0xBF]);
    assert_eq!(Format::Utf16le.get_bom(), vec![0xFF, 0xFE]);
    assert_eq!(Format::Utf16be.get_bom(), vec![0xFE, 0xFF]);
    assert_eq!(Format::Utf32le.get_bom(), vec![0xFF, 0xFE, 0x00, 0x00]);
    assert_eq!(Format::Utf32be.get_bom(), vec![0x00, 0x00, 0xFE, 0xFF]);
}

#[test]
fn test_detect_matches_written_bom() {
    for f in [
        Format::Utf8bom,
        Format::Utf16be,
        Format::Utf32le,
        Format::Utf32be,
    ] {
        let mut prefix = f.get_bom();
        while prefix.len() < 4 {
            prefix.push(0x41);
        }
        assert_eq!(Format::detect(&prefix), f);
    }
}
