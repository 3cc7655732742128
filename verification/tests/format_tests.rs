use slabtastic::constants::{FOOTER_V1_SIZE, MAGIC};
use slabtastic::{Footer, Page, PageEntry, PageType, PagesPage, SlabError};

#[test]
fn test_magic_bytes() {
    assert_eq!(&MAGIC, b"SLAB");
}

#[test]
fn test_page_type_roundtrip() {
    for val in 0..=2u8 {
        let pt = PageType::from_u8(val).unwrap();
        assert_eq!(pt as u8, val);
    }
    assert!(PageType::from_u8(3).is_none());
    assert!(PageType::from_u8(255).is_none());
}

#[test]
fn test_footer_roundtrip() {
    let footer = Footer::new(42, 10, 4096, PageType::Data);
    let mut buf = [0u8; FOOTER_V1_SIZE];
    footer.write_to(&mut buf);
    let decoded = Footer::read_from(&buf).unwrap();
    assert_eq!(footer, decoded);
}

#[test]
fn test_footer_negative_ordinal() {
    let footer = Footer::new(-1, 1, 512, PageType::Data);
    let mut buf = [0u8; FOOTER_V1_SIZE];
    footer.write_to(&mut buf);
    let decoded = Footer::read_from(&buf).unwrap();
    assert_eq!(decoded.start_ordinal, -1);
}

#[test]
fn test_footer_large_ordinal() {
    let max_ord: i64 = (1i64 << 39) - 1;
    let footer = Footer::new(max_ord, 100, 65536, PageType::Pages);
    let mut buf = [0u8; FOOTER_V1_SIZE];
    footer.write_to(&mut buf);
    let decoded = Footer::read_from(&buf).unwrap();
    assert_eq!(decoded.start_ordinal, max_ord);
}

#[test]
fn test_footer_max_record_count() {
    let footer = Footer::new(0, 0x00FF_FFFF, 65536, PageType::Data);
    let mut buf = [0u8; FOOTER_V1_SIZE];
    footer.write_to(&mut buf);
    let decoded = Footer::read_from(&buf).unwrap();
    assert_eq!(decoded.record_count, 0x00FF_FFFF);
}

#[test]
fn test_footer_invalid_version() {
    let footer = Footer {
        start_ordinal: 0,
        record_count: 0,
        page_size: 512,
        page_type: PageType::Data,
        version: 99,
        footer_length: 16,
    };
    let mut buf = [0u8; FOOTER_V1_SIZE];
    footer.write_to(&mut buf);
    let result = Footer::read_from(&buf);
    assert!(result.is_err());
}

#[test]
fn test_footer_invalid_page_type() {
    let mut buf = [0u8; FOOTER_V1_SIZE];
    let footer = Footer::new(0, 0, 512, PageType::Data);
    footer.write_to(&mut buf);
    buf[12] = 0;
    let result = Footer::read_from(&buf);
    assert!(result.is_err());
}

#[test]
fn test_footer_buffer_too_small() {
    let buf = [0u8; 8];
    let result = Footer::read_from(&buf);
    assert!(result.is_err());
}

#[test]
fn test_footer_invalid_page_type_zero() {
    let mut buf = [0u8; FOOTER_V1_SIZE];
    let footer = Footer::new(0, 0, 512, PageType::Data);
    footer.write_to(&mut buf);
    buf[12] = 0;
    let result = Footer::read_from(&buf);
    assert!(result.is_err());
}

#[test]
fn test_footer_invalid_page_type_unknown() {
    let mut buf = [0u8; FOOTER_V1_SIZE];
    let footer = Footer::new(0, 0, 512, PageType::Data);
    footer.write_to(&mut buf);
    buf[12] = 255;
    let result = Footer::read_from(&buf);
    assert!(result.is_err());
}

#[test]
fn test_footer_footer_length_too_small() {
    let mut buf = [0u8; FOOTER_V1_SIZE];
    let footer = Footer::new(0, 0, 512, PageType::Data);
    footer.write_to(&mut buf);
    buf[14..16].copy_from_slice(&8u16.to_le_bytes());
    let result = Footer::read_from(&buf);
    assert!(result.is_err());
}

#[test]
fn test_max_positive_ordinal() {
    let max_ord: i64 = (1i64 << 39) - 1;
    let footer = Footer::new(max_ord, 1, 512, PageType::Data);
    let mut buf = [0u8; FOOTER_V1_SIZE];
    footer.write_to(&mut buf);
    let decoded = Footer::read_from(&buf).unwrap();
    assert_eq!(decoded.start_ordinal, max_ord);
}

#[test]
fn test_max_negative_ordinal() {
    let min_ord: i64 = -(1i64 << 39);
    let footer = Footer::new(min_ord, 1, 512, PageType::Data);
    let mut buf = [0u8; FOOTER_V1_SIZE];
    footer.write_to(&mut buf);
    let decoded = Footer::read_from(&buf).unwrap();
    assert_eq!(decoded.start_ordinal, min_ord);
}

#[test]
fn test_ordinal_just_outside_negative_range() {
    let footer = Footer::new(-1, 0, 512, PageType::Data);
    let mut buf = [0u8; FOOTER_V1_SIZE];
    footer.write_to(&mut buf);
    let decoded = Footer::read_from(&buf).unwrap();
    assert_eq!(decoded.start_ordinal, -1);
}

#[test]
fn test_zero_ordinal_roundtrip() {
    let footer = Footer::new(0, 0, 512, PageType::Data);
    let mut buf = [0u8; FOOTER_V1_SIZE];
    footer.write_to(&mut buf);
    let decoded = Footer::read_from(&buf).unwrap();
    assert_eq!(decoded.start_ordinal, 0);
}

#[test]
fn test_pages_page_roundtrip() {
    let mut pp = PagesPage::new();
    pp.add_entry(0, 0);
    pp.add_entry(100, 4096);
    pp.add_entry(200, 8192);

    let bytes = pp.serialize();
    let decoded = PagesPage::deserialize(&bytes).unwrap();
    let entries = decoded.entries();
    assert_eq!(entries.len(), 3);
    assert_eq!(entries[0], PageEntry { start_ordinal: 0, file_offset: 0 });
    assert_eq!(entries[1], PageEntry { start_ordinal: 100, file_offset: 4096 });
    assert_eq!(entries[2], PageEntry { start_ordinal: 200, file_offset: 8192 });
}

#[test]
fn test_find_page_exact() {
    let mut pp = PagesPage::new();
    pp.add_entry(0, 0);
    pp.add_entry(100, 4096);
    pp.add_entry(200, 8192);

    let entry = pp.find_page_for_ordinal(100).unwrap();
    assert_eq!(entry.start_ordinal, 100);
    assert_eq!(entry.file_offset, 4096);
}

#[test]
fn test_find_page_between() {
    let mut pp = PagesPage::new();
    pp.add_entry(0, 0);
    pp.add_entry(100, 4096);
    pp.add_entry(200, 8192);

    let entry = pp.find_page_for_ordinal(150).unwrap();
    assert_eq!(entry.start_ordinal, 100);
}

#[test]
fn test_find_page_before_first() {
    let mut pp = PagesPage::new();
    pp.add_entry(10, 0);

    assert!(pp.find_page_for_ordinal(5).is_none());
}

#[test]
fn test_find_page_empty() {
    let pp = PagesPage::new();
    assert!(pp.find_page_for_ordinal(0).is_none());
}

#[test]
fn test_pages_page_single_entry() {
    let mut pp = PagesPage::new();
    pp.add_entry(42, 1024);
    let bytes = pp.serialize();
    let decoded = PagesPage::deserialize(&bytes).unwrap();
    assert_eq!(decoded.entry_count(), 1);
    let entries = decoded.entries();
    assert_eq!(entries[0].start_ordinal, 42);
    assert_eq!(entries[0].file_offset, 1024);
}

#[test]
fn test_pages_page_find_ordinal_at_exact_last_entry() {
    let mut pp = PagesPage::new();
    pp.add_entry(0, 0);
    pp.add_entry(100, 4096);
    pp.add_entry(200, 8192);

    let entry = pp.find_page_for_ordinal(200).unwrap();
    assert_eq!(entry.start_ordinal, 200);
}

#[test]
fn test_pages_page_find_ordinal_well_past_last() {
    let mut pp = PagesPage::new();
    pp.add_entry(0, 0);
    pp.add_entry(100, 4096);

    let entry = pp.find_page_for_ordinal(999999).unwrap();
    assert_eq!(entry.start_ordinal, 100);
}

#[test]
fn test_pages_page_negative_ordinal_before_all() {
    let mut pp = PagesPage::new();
    pp.add_entry(0, 0);

    assert!(pp.find_page_for_ordinal(-1).is_none());
}

#[test]
fn test_page_entry_roundtrip() {
    let entry = PageEntry {
        start_ordinal: -42,
        file_offset: i64::MAX,
    };
    let bytes = entry.to_bytes();
    let decoded = PageEntry::from_bytes(&bytes);
    assert_eq!(decoded.start_ordinal, -42);
    assert_eq!(decoded.file_offset, i64::MAX);
}

#[test]
fn test_page_entry_zero_values() {
    let entry = PageEntry {
        start_ordinal: 0,
        file_offset: 0,
    };
    let bytes = entry.to_bytes();
    let decoded = PageEntry::from_bytes(&bytes);
    assert_eq!(decoded, entry);
}

#[test]
fn test_page_deserialize_truncated_buffer() {
    let tiny = vec![0u8; 10];
    let result = Page::deserialize(&tiny);
    assert!(result.is_err());
}

#[test]
fn test_page_deserialize_bad_magic() {
    let mut page = Page::new(0, PageType::Data);
    page.add_record(b"data");
    let mut bytes = page.serialize();
    bytes[0..4].copy_from_slice(b"NOPE");
    let result = Page::deserialize(&bytes);
    assert!(matches!(result, Err(SlabError::InvalidMagic)));
}

#[test]
fn test_page_deserialize_header_footer_size_mismatch() {
    let mut page = Page::new(0, PageType::Data);
    page.add_record(b"data");
    let mut bytes = page.serialize();
    let bad_size = (bytes.len() as u32 + 100).to_le_bytes();
    bytes[4..8].copy_from_slice(&bad_size);
    let result = Page::deserialize(&bytes);
    assert!(
        matches!(result, Err(SlabError::PageSizeMismatch { .. })),
        "expected PageSizeMismatch, got {result:?}"
    );
}
