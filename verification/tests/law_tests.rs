use slabtastic::maintenance::{
    analyze_pages, detect_content, detect_format_from_extension, export_format, forward_pages,
    frame_record, info_summary, make_writer_config, page_rows, page_used_bytes, reorder_records,
    split_lines, ContentKind, ExportConfig, ExportFormat, PageRow,
};
use slabtastic::report::{hex_dump, value_stats, Bar};
use slabtastic::{
    Footer, Page, PageEntry, PageType, PagesPage, SlabError, SlabReader, SlabWriter, WriterConfig,
};

/// Writes `records` with `config` and returns the file's bytes.
fn write_file(config: WriterConfig, records: &[Vec<u8>]) -> Vec<u8> {
    let mut writer = SlabWriter::new(config);
    for rec in records {
        writer.add_record(rec).unwrap();
    }
    writer.finish().unwrap();
    writer.take_output()
}

/// Appends `records` to the file `data` and returns the new file.
fn append_file(data: &[u8], config: WriterConfig, records: &[Vec<u8>]) -> Vec<u8> {
    let mut writer = SlabWriter::append(data, config).unwrap();
    assert_eq!(writer.base_offset(), data.len() as u64);
    for rec in records {
        writer.add_record(rec).unwrap();
    }
    writer.finish().unwrap();
    let mut out = data.to_vec();
    out.extend(writer.take_output());
    out
}

fn numbered(prefix: &str, n: usize) -> Vec<Vec<u8>> {
    (0..n).map(|i| format!("{prefix}-{i:03}").into_bytes()).collect()
}

#[test]
fn test_append_keeps_old_bytes_and_records() {
    let config = WriterConfig::new(512, 512, u32::MAX, false).unwrap();
    let old = numbered("old", 40);
    let new = numbered("new", 30);
    let before = write_file(config, &old);
    let after = append_file(&before, config, &new);

    assert_eq!(&after[..before.len()], &before[..]);
    let reader = SlabReader::open(after).unwrap();
    for (i, rec) in old.iter().enumerate() {
        assert_eq!(reader.get(i as i64).unwrap(), *rec);
    }
    for (i, rec) in new.iter().enumerate() {
        assert_eq!(reader.get((old.len() + i) as i64).unwrap(), *rec);
    }
    assert!(matches!(
        reader.get(70),
        Err(SlabError::OrdinalNotFound(70))
    ));
    assert!(matches!(reader.get(-1), Err(SlabError::OrdinalNotFound(-1))));
}

#[test]
fn test_append_index_keeps_old_entries_first() {
    let config = WriterConfig::default();
    let before = write_file(config, &[b"x".to_vec(), b"y".to_vec()]);
    let old_entries = SlabReader::open(before.clone()).unwrap().page_entries();
    let after = append_file(&before, config, &[b"z".to_vec()]);
    let entries = SlabReader::open(after.clone()).unwrap().page_entries();
    assert_eq!(entries.len(), old_entries.len() + 1);
    assert_eq!(&entries[..old_entries.len()], &old_entries[..]);
    let last = entries.last().unwrap();
    assert_eq!(last.start_ordinal, 2);
    assert_eq!(last.file_offset, before.len() as i64);
}

#[test]
fn test_append_without_records_keeps_contents() {
    let config = WriterConfig::default();
    let before = write_file(config, &numbered("r", 5));
    let after = append_file(&before, config, &[]);
    assert!(after.len() > before.len());
    let reader = SlabReader::open(after).unwrap();
    assert_eq!(reader.page_count(), 1);
    let all = reader.iter().unwrap();
    let expected: Vec<(i64, Vec<u8>)> = numbered("r", 5)
        .into_iter()
        .enumerate()
        .map(|(i, r)| (i as i64, r))
        .collect();
    assert_eq!(all, expected);
}

#[test]
fn test_append_leaves_old_pages_page_in_walk() {
    let config = WriterConfig::default();
    let before = write_file(config, &[b"a".to_vec()]);
    let after = append_file(&before, config, &[b"b".to_vec()]);
    let walk = forward_pages(&after).unwrap();
    let types: Vec<PageType> = walk.iter().map(|(_, t)| *t).collect();
    assert_eq!(
        types,
        vec![PageType::Data, PageType::Pages, PageType::Data, PageType::Pages]
    );
    assert_eq!(walk[2].0, before.len() as u64);
}

#[test]
fn test_append_next_ordinal_follows_last_record() {
    let config = WriterConfig::default();
    let before = write_file(config, &numbered("r", 7));
    let writer = SlabWriter::append(&before, config).unwrap();
    assert_eq!(writer.next_ordinal(), 7);
    assert_eq!(writer.file_offset(), before.len() as u64);
}

#[test]
fn test_append_to_file_with_bad_entry_fails() {
    // A pages page whose single entry points past the end of the file.
    let mut pp = PagesPage::new();
    pp.add_entry(0, 100_000);
    let bytes = pp.serialize();
    let result = SlabWriter::append(&bytes, WriterConfig::default());
    assert!(matches!(
        result,
        Err(SlabError::TruncatedPage { expected: 8, actual: 0 })
    ));
}

#[test]
fn test_append_to_garbage_fails_like_open() {
    let result = SlabWriter::append(&[1, 2, 3], WriterConfig::default());
    assert!(matches!(
        result,
        Err(SlabError::TruncatedPage { expected: 24, actual: 3 })
    ));
}

#[test]
fn test_written_file_lists_in_order() {
    let config = WriterConfig::new(512, 512, u32::MAX, false).unwrap();
    let records = numbered("item", 120);
    let bytes = write_file(config, &records);

    let reader = SlabReader::open(bytes.clone()).unwrap();
    assert!(reader.page_count() > 1);
    let all = reader.iter().unwrap();
    for (i, (ord, rec)) in all.iter().enumerate() {
        assert_eq!(*ord, i as i64);
        assert_eq!(*rec, records[i]);
    }
    assert_eq!(all.len(), records.len());

    let mut sink = Vec::new();
    let count = reader.read_all_to_sink(&mut sink).unwrap();
    assert_eq!(count, 120);
    assert_eq!(sink, records.concat());

    let mut batches = SlabReader::open(bytes).unwrap().batch_iter(7);
    let mut seen: Vec<(i64, Vec<u8>)> = Vec::new();
    loop {
        let batch = batches.next_batch().unwrap();
        if batch.is_empty() {
            break;
        }
        assert!(batch.len() <= 7);
        seen.extend(batch);
    }
    assert_eq!(seen, all);
}

#[test]
fn test_appended_pages_aligned() {
    let config = WriterConfig::new(512, 1024, u32::MAX, true).unwrap();
    let before = write_file(config, &numbered("a", 50));
    let after = append_file(&before, config, &numbered("b", 50));
    let reader = SlabReader::open(after).unwrap();
    for entry in reader.page_entries() {
        let page = reader.read_page_at_offset(entry.file_offset as u64).unwrap();
        assert_eq!(page.footer.page_size % 512, 0);
        assert!(page.footer.page_size >= 512);
    }
}

#[test]
fn test_unaligned_page_is_minimal() {
    let config = WriterConfig::default();
    let bytes = write_file(config, &[b"abc".to_vec()]);
    // header 8 + data 3 + offsets 8 + footer 16
    let reader = SlabReader::open(bytes).unwrap();
    let page = reader.read_page_at_offset(0).unwrap();
    assert_eq!(page.footer.page_size, 35);
    assert_eq!(reader.file_len(), 35 + 28 + 20);
}

#[test]
fn test_pages_page_serialize_deserialize_law() {
    let mut pp = PagesPage::new();
    pp.add_entry(-5, 0);
    pp.add_entry(10, 600);
    pp.add_entry(1 << 38, 1 << 40);
    let bytes = pp.serialize();
    let back = PagesPage::deserialize(&bytes).unwrap();
    assert_eq!(back.entries(), pp.entries());
    assert_eq!(back.entry_count(), 3);
}

#[test]
fn test_pages_page_default_is_empty() {
    let pp = PagesPage::default();
    assert_eq!(pp.entry_count(), 0);
    assert!(pp.entries().is_empty());
    assert_eq!(pp.find_page_for_ordinal(0), None);
}

#[test]
fn test_io_error_converts() {
    let io = std::io::Error::new(std::io::ErrorKind::NotFound, "missing");
    let e: SlabError = io.into();
    assert!(matches!(e, SlabError::Io(ref inner) if inner.kind() == std::io::ErrorKind::NotFound));
}

#[test]
fn test_footer_short_message() {
    let result = Footer::read_from(&[0u8; 8]);
    match result {
        Err(SlabError::InvalidFooter(m)) => assert_eq!(m, "buffer too small: 8 < 16"),
        other => panic!("unexpected {other:?}"),
    }
}

#[test]
fn test_footer_length_message() {
    let mut buf = [0u8; 16];
    Footer::new(0, 0, 512, PageType::Data).write_to(&mut buf);
    buf[14..16].copy_from_slice(&8u16.to_le_bytes());
    match Footer::read_from(&buf) {
        Err(SlabError::InvalidFooter(m)) => assert_eq!(m, "footer_length 8 < 16"),
        other => panic!("unexpected {other:?}"),
    }
}

#[test]
fn test_footer_version_error() {
    let mut buf = [0u8; 16];
    Footer::new(3, 1, 512, PageType::Pages).write_to(&mut buf);
    buf[13] = 7;
    assert!(matches!(Footer::read_from(&buf), Err(SlabError::InvalidVersion(7))));
}

#[test]
fn test_footer_page_type_error_value() {
    let mut buf = [0u8; 16];
    Footer::new(3, 1, 512, PageType::Pages).write_to(&mut buf);
    buf[12] = 9;
    assert!(matches!(Footer::read_from(&buf), Err(SlabError::InvalidPageType(9))));
    buf[12] = 0;
    assert!(matches!(Footer::read_from(&buf), Err(SlabError::InvalidPageType(0))));
}

#[test]
fn test_footer_exact_bytes() {
    let mut buf = [0u8; 16];
    Footer::new(-1, 0x01_0203, 0x0405_0607, PageType::Data).write_to(&mut buf);
    assert_eq!(
        buf,
        [0xff, 0xff, 0xff, 0xff, 0xff, 0x03, 0x02, 0x01, 0x07, 0x06, 0x05, 0x04, 2, 1, 16, 0]
    );
    let f = Footer::read_from(&buf).unwrap();
    assert_eq!(f.start_ordinal, -1);
    assert_eq!(f.record_count, 0x01_0203);
    assert_eq!(f.page_size, 0x0405_0607);
}

#[test]
fn test_page_entry_exact_bytes() {
    let e = PageEntry { start_ordinal: -2, file_offset: 0x0102 };
    let b = e.to_bytes();
    assert_eq!(
        b,
        [0xfe, 0xff, 0xff, 0xff, 0xff, 0xff, 0xff, 0xff, 0x02, 0x01, 0, 0, 0, 0, 0, 0]
    );
    assert_eq!(PageEntry::from_bytes(&b), e);
}

#[test]
fn test_page_exact_layout() {
    let mut page = Page::new(5, PageType::Data);
    page.add_record(b"ab");
    page.add_record(b"c");
    assert_eq!(page.serialized_size(), 8 + 3 + 12 + 16);
    let bytes = page.serialize();
    assert_eq!(&bytes[0..4], b"SLAB");
    assert_eq!(&bytes[4..8], &39u32.to_le_bytes());
    assert_eq!(&bytes[8..11], b"abc");
    assert_eq!(&bytes[11..23], &[8, 0, 0, 0, 10, 0, 0, 0, 11, 0, 0, 0]);
    let back = Page::deserialize(&bytes).unwrap();
    assert_eq!(back.start_ordinal(), 5);
    assert_eq!(back.get_record(1), Some(&b"c"[..]));
    assert_eq!(back.get_record(2), None);
}

#[test]
fn test_page_offsets_out_of_bounds() {
    let mut page = Page::new(0, PageType::Data);
    page.add_record(b"abc");
    let mut bytes = page.serialize();
    // the end offset of the only record points into the offset array
    let os = bytes.len() - 16 - 8;
    bytes[os + 4..os + 8].copy_from_slice(&200u32.to_le_bytes());
    match Page::deserialize(&bytes) {
        Err(SlabError::InvalidFooter(m)) => assert_eq!(m, "record offsets out of bounds"),
        other => panic!("unexpected {other:?}"),
    }
}

#[test]
fn test_page_size_mismatch_values() {
    let mut page = Page::new(0, PageType::Data);
    page.add_record(b"abc");
    let mut bytes = page.serialize();
    bytes[4..8].copy_from_slice(&100u32.to_le_bytes());
    assert!(matches!(
        Page::deserialize(&bytes),
        Err(SlabError::PageSizeMismatch { header: 100, footer: 35 })
    ));
}

#[test]
fn test_reader_sparse_gap() {
    // a file with pages for ordinals 0..2 and 10..12
    let mut p0 = Page::new(0, PageType::Data);
    p0.add_record(b"a");
    p0.add_record(b"b");
    let mut p1 = Page::new(10, PageType::Data);
    p1.add_record(b"k");
    p1.add_record(b"l");
    let b0 = p0.serialize();
    let b1 = p1.serialize();
    let mut pp = PagesPage::new();
    pp.add_entry(0, 0);
    pp.add_entry(10, b0.len() as i64);
    let mut file = b0.clone();
    file.extend(b1);
    file.extend(pp.serialize());
    let reader = SlabReader::open(file.clone()).unwrap();
    assert_eq!(reader.get(1).unwrap(), b"b");
    assert_eq!(reader.get(11).unwrap(), b"l");
    assert!(matches!(reader.get(5), Err(SlabError::OrdinalNotFound(5))));
    assert!(!reader.contains(5));
    assert!(reader.contains(10));
    // appending continues after the highest ordinal
    let w = SlabWriter::append(&file, WriterConfig::default()).unwrap();
    assert_eq!(w.next_ordinal(), 12);
}

#[test]
fn test_record_too_large_values() {
    let config = WriterConfig::new(512, 512, 512, false).unwrap();
    let mut w = SlabWriter::new(config);
    let result = w.add_record(&vec![0u8; 481]);
    assert!(matches!(
        result,
        Err(SlabError::RecordTooLarge { record_size: 481, max_size: 480 })
    ));
    assert_eq!(w.next_ordinal(), 0);
}

#[test]
fn test_make_writer_config_defaults_and_errors() {
    let c = make_writer_config(None, None, false).unwrap();
    assert_eq!(c, WriterConfig::default());
    let c = make_writer_config(Some(4096), Some(1024), true).unwrap();
    assert_eq!(c.preferred_page_size, 4096);
    assert_eq!(c.min_page_size, 1024);
    assert!(c.page_alignment);
    assert!(matches!(
        make_writer_config(None, Some(100), false),
        Err(SlabError::PageTooSmall(100))
    ));
    assert!(matches!(
        make_writer_config(Some(600), Some(1024), false),
        Err(SlabError::PageTooSmall(600))
    ));
}

#[test]
fn test_config_aligned_size() {
    let aligned = WriterConfig::new(512, 512, u32::MAX, true).unwrap();
    assert_eq!(aligned.aligned_size(1), 512);
    assert_eq!(aligned.aligned_size(512), 512);
    assert_eq!(aligned.aligned_size(513), 1024);
    let plain = WriterConfig::default();
    assert_eq!(plain.aligned_size(513), 513);
}

#[test]
fn test_reorder_records_sorts_stably() {
    let input = vec![
        (3, b"c".to_vec()),
        (1, b"a".to_vec()),
        (3, b"c2".to_vec()),
        (2, b"b".to_vec()),
    ];
    let (monotonic, out) = reorder_records(input);
    assert!(!monotonic);
    assert_eq!(
        out,
        vec![
            (1, b"a".to_vec()),
            (2, b"b".to_vec()),
            (3, b"c".to_vec()),
            (3, b"c2".to_vec())
        ]
    );
    let (monotonic, out) = reorder_records(vec![(0, vec![]), (0, vec![1]), (5, vec![2])]);
    assert!(monotonic);
    assert_eq!(out.len(), 3);
}

#[test]
fn test_info_summary_values() {
    let pages = vec![(10i64, 5usize), (0, 3), (20, 0)];
    assert_eq!(info_summary(&pages), (8, Some(0), Some(19)));
    assert_eq!(info_summary(&Vec::new()), (0, None, None));
}

#[test]
fn test_analyze_pages_values() {
    let a = analyze_pages(&vec![(0i64, 10usize), (10, 5), (20, 2)]);
    assert_eq!(a.total_records, 17);
    assert_eq!(a.min_ordinal, Some(0));
    assert_eq!(a.max_ordinal, Some(21));
    assert!(a.monotonic);
    assert!(a.has_gaps);
    assert_eq!(a.last_end, Some(21));

    let b = analyze_pages(&vec![(10i64, 5usize), (0, 10)]);
    assert!(!b.monotonic);
    assert!(!b.has_gaps);
}

#[test]
fn test_page_used_bytes_value() {
    assert_eq!(page_used_bytes(100, 3), 100 + 16 + 24);
    assert_eq!(page_used_bytes(0, 0), 28);
}

#[test]
fn test_detect_content_kinds() {
    assert_eq!(detect_content(&vec![b"plain".to_vec()]), ContentKind::Text);
    assert_eq!(detect_content(&vec![b"a\nb".to_vec()]), ContentKind::TextLines);
    assert_eq!(detect_content(&vec![vec![0xff, 1]]), ContentKind::Binary);
    assert_eq!(
        detect_content(&vec![vec![0xff], vec![0]]),
        ContentKind::BinaryCstrings
    );
    // only the first 100 records are sampled
    let mut many: Vec<Vec<u8>> = (0..100).map(|_| b"x".to_vec()).collect();
    many.push(vec![0xff]);
    assert_eq!(detect_content(&many), ContentKind::Text);
}

#[test]
fn test_export_format_from_path() {
    assert_eq!(detect_format_from_extension("out.slab"), ExportFormat::Slab);
    assert_eq!(detect_format_from_extension("dir.slab/out.txt"), ExportFormat::Text);
    assert_eq!(detect_format_from_extension("slab"), ExportFormat::Text);
    assert_eq!(export_format(&export_config(false, false, false, Some("x.slab"))), ExportFormat::Slab);
    assert_eq!(export_format(&export_config(false, true, false, Some("x.slab"))), ExportFormat::Cstrings);
    assert_eq!(export_format(&export_config(true, true, true, None)), ExportFormat::Slab);
    assert_eq!(export_format(&export_config(false, false, true, Some("x.slab"))), ExportFormat::Text);
    assert_eq!(export_format(&export_config(false, false, false, None)), ExportFormat::Text);
}

const NO_NAMESPACE: Option<String> = None;

fn export_config(
    slab: bool,
    cstrings: bool,
    text: bool,
    output: Option<&'static str>,
) -> ExportConfig<'static> {
    ExportConfig {
        file: "in.slab",
        output,
        format_text: text,
        format_cstrings: cstrings,
        format_slab: slab,
        as_is: false,
        preferred_page_size: None,
        min_page_size: None,
        page_alignment: false,
        progress: false,
        namespace: &NO_NAMESPACE,
    }
}

#[test]
fn test_hex_dump_layout() {
    let text = hex_dump(b"Hello, slab!\x00\x01 more bytes");
    assert_eq!(
        String::from_utf8(text).unwrap(),
        "  00000000  48 65 6c 6c 6f 2c 20 73  6c 61 62 21 00 01 20 6d  |Hello, slab!.. m|\n  00000010  6f 72 65 20 62 79 74 65  73                       |ore bytes|\n"
    );
    assert_eq!(
        String::from_utf8(hex_dump(b"abc")).unwrap(),
        "  00000000  61 62 63                                          |abc|\n"
    );
    assert!(hex_dump(b"").is_empty());
}

#[test]
fn test_value_stats_histogram() {
    assert!(value_stats(&[]).is_none());
    let st = value_stats(&[10, 20, 30, 40, 50, 60]).unwrap();
    assert_eq!((st.min, st.max, st.sum, st.count), (10, 60, 210, 6));
    // width ceil(50 / 5) = 10; bars 10..=19, 20..=29, 30..=39, 40..=49, 50..=60
    let counts: Vec<usize> = st.histogram.iter().map(|b| b.count).collect();
    assert_eq!(counts, vec![1, 1, 1, 1, 2]);
    assert_eq!(st.histogram[0], Bar { lo: 10, hi: 19, count: 1, len: 6 });
    assert_eq!(st.histogram[4], Bar { lo: 50, hi: 60, count: 2, len: 13 });
    let same = value_stats(&[7, 7, 7]).unwrap();
    assert_eq!((same.min, same.max, same.sum), (7, 7, 21));
    assert!(same.histogram.is_empty());
}

#[test]
fn test_value_stats_small_span() {
    // width ceil(1 / 5) = 1: bars 0, 1, 2, 3, 4..=1
    let st = value_stats(&[0, 1, 1]).unwrap();
    let counts: Vec<usize> = st.histogram.iter().map(|b| b.count).collect();
    assert_eq!(counts, vec![1, 2, 0, 0, 0]);
    assert_eq!(st.histogram[1].len, 26);
    assert_eq!(st.histogram[2].len, 0);
}

#[test]
fn test_page_rows_of_file() {
    let config = WriterConfig::new(512, 512, u32::MAX, false).unwrap();
    let bytes = write_file(config, &numbered("row", 60));
    let reader = SlabReader::open(bytes).unwrap();
    let rows = page_rows(&reader).unwrap();
    assert_eq!(rows.len(), reader.page_count());
    assert_eq!(rows[0].start_ordinal, 0);
    assert_eq!(rows[0].file_offset, 0);
    let total: usize = rows.iter().map(|r| r.record_count).sum();
    assert_eq!(total, 60);
    for w in rows.windows(2) {
        assert_eq!(w[1].start_ordinal, w[0].start_ordinal + w[0].record_count as i64);
        assert_eq!(w[1].file_offset, w[0].file_offset + w[0].page_size as i64);
    }
    let summary = info_summary(&rows.iter().map(|r: &PageRow| (r.start_ordinal, r.record_count)).collect());
    assert_eq!(summary, (60, Some(0), Some(59)));
}

#[test]
fn test_split_lines_like_bufread() {
    let lines = split_lines(b"one\ntwo\r\n\nlast\r");
    assert_eq!(
        lines,
        vec![b"one".to_vec(), b"two".to_vec(), b"".to_vec(), b"last\r".to_vec()]
    );
    assert_eq!(split_lines(b"a\n"), vec![b"a".to_vec()]);
    assert!(split_lines(b"").is_empty());
    assert_eq!(split_lines(b"\n\n"), vec![Vec::<u8>::new(), Vec::new()]);
}

#[test]
fn test_frame_record_values() {
    assert_eq!(frame_record(b"abc", b'\n', false), b"abc\n".to_vec());
    assert_eq!(frame_record(b"abc\n", b'\n', false), b"abc\n".to_vec());
    assert_eq!(frame_record(b"abc", b'\n', true), b"abc".to_vec());
    assert_eq!(frame_record(b"", 0, false), vec![0]);
}

#[test]
fn test_forward_pages_fresh_file() {
    let config = WriterConfig::new(512, 512, u32::MAX, false).unwrap();
    let bytes = write_file(config, &numbered("w", 100));
    let walk = forward_pages(&bytes).unwrap();
    assert_eq!(walk[0].0, 0);
    assert_eq!(walk.last().unwrap().1, PageType::Pages);
    assert!(walk[..walk.len() - 1].iter().all(|(_, t)| *t == PageType::Data));
    let mut broken = bytes.clone();
    broken[0] = b'X';
    assert!(matches!(forward_pages(&broken), Err(SlabError::InvalidMagic)));
}

#[test]
fn test_flush_page_then_finish() {
    let mut w = SlabWriter::new(WriterConfig::default());
    w.add_record(b"one").unwrap();
    w.flush_page().unwrap();
    // flushing an empty page does nothing
    let offset = w.file_offset();
    w.flush_page().unwrap();
    assert_eq!(w.file_offset(), offset);
    w.add_record(b"two").unwrap();
    w.finish().unwrap();
    let reader = SlabReader::open(w.take_output()).unwrap();
    assert_eq!(reader.page_count(), 2);
    assert_eq!(reader.get(0).unwrap(), b"one");
    assert_eq!(reader.get(1).unwrap(), b"two");
}

#[test]
fn test_footer_length_multiple_of_16() {
    let mut buf = [0u8; 16];
    Footer::new(0, 0, 512, PageType::Data).write_to(&mut buf);
    buf[14..16].copy_from_slice(&20u16.to_le_bytes());
    match Footer::read_from(&buf) {
        Err(SlabError::InvalidFooter(m)) => {
            assert_eq!(m, "footer_length 20 is not a multiple of 16")
        }
        other => panic!("unexpected {other:?}"),
    }
    buf[14..16].copy_from_slice(&32u16.to_le_bytes());
    assert_eq!(Footer::read_from(&buf).unwrap().footer_length, 32);
}

#[test]
fn test_error_messages() {
    assert_eq!(SlabError::InvalidMagic.message(), "invalid magic bytes (expected SLAB)");
    assert_eq!(SlabError::InvalidVersion(99).message(), "invalid page version: 99");
    assert_eq!(SlabError::InvalidPageType(0).message(), "invalid page type: 0");
    assert_eq!(
        SlabError::PageSizeMismatch { header: 100, footer: 35 }.message(),
        "page size mismatch: header=100, footer=35"
    );
    assert_eq!(SlabError::PageTooSmall(256).message(), "page size 256 below minimum 512");
    assert_eq!(SlabError::PageTooLarge(4294967296).message(), "page size 4294967296 exceeds maximum");
    assert_eq!(
        SlabError::RecordTooLarge { record_size: 481, max_size: 480 }.message(),
        "record size 481 exceeds max page capacity 480"
    );
    assert_eq!(SlabError::OrdinalNotFound(-12).message(), "ordinal -12 not found");
    assert_eq!(SlabError::OrdinalNotFound(i64::MIN).message(), "ordinal -9223372036854775808 not found");
    assert_eq!(SlabError::InvalidFooter("x".to_string()).message(), "invalid footer: x");
    assert_eq!(
        SlabError::TruncatedPage { expected: 24, actual: 3 }.message(),
        "truncated page: expected 24 bytes, got 3"
    );
    let io = std::io::Error::new(std::io::ErrorKind::Other, "disk gone");
    assert_eq!(SlabError::Io(io).message(), "I/O error: disk gone");
}

#[test]
fn test_max_page_size_is_a_ceiling() {
    let config = WriterConfig::new(512, 512, 512, false).unwrap();
    let mut w = SlabWriter::new(config);
    w.add_record(&vec![1u8; 400]).unwrap();
    w.add_record(&vec![2u8; 100]).unwrap();
    w.finish().unwrap();
    let reader = SlabReader::open(w.take_output()).unwrap();
    assert_eq!(reader.page_count(), 2);
    for entry in reader.page_entries() {
        let page = reader.read_data_page(&entry).unwrap();
        assert!(page.footer.page_size <= 512);
    }
    assert_eq!(reader.get(0).unwrap(), vec![1u8; 400]);
    assert_eq!(reader.get(1).unwrap(), vec![2u8; 100]);
}

#[test]
fn test_pages_flush_at_preferred_size() {
    // each record of 92 bytes adds 96 bytes; a page of k records holds
    // 28 + 96 k bytes and is flushed once it reaches 512: k = 5 (508) stays,
    // k = 6 (604) would exceed the maximum, so the page is flushed before it
    let config = WriterConfig::new(512, 512, 600, false).unwrap();
    let mut w = SlabWriter::new(config);
    for i in 0..12u8 {
        w.add_record(&vec![i; 92]).unwrap();
        assert!(w.pending_size() < 512);
    }
    w.finish().unwrap();
    let reader = SlabReader::open(w.take_output()).unwrap();
    let rows = page_rows(&reader).unwrap();
    let counts: Vec<usize> = rows.iter().map(|r| r.record_count).collect();
    assert_eq!(counts, vec![5, 5, 2]);
    for row in &rows {
        assert!(row.page_size <= 600);
    }
}

#[test]
fn test_writer_config_getter() {
    let config = WriterConfig::new(1024, 2048, 4096, true).unwrap();
    let w = SlabWriter::new(config);
    assert_eq!(w.config(), config);
    assert_eq!(w.pending_size(), 28);
}

#[test]
fn test_appended_file_iterates_old_then_new() {
    let config = WriterConfig::new(512, 512, 4096, false).unwrap();
    let old = numbered("o", 30);
    let new = numbered("n", 30);
    let before = write_file(config, &old);
    let after = append_file(&before, config, &new);
    let all = SlabReader::open(after).unwrap().iter().unwrap();
    let expected: Vec<(i64, Vec<u8>)> = old
        .iter()
        .chain(new.iter())
        .enumerate()
        .map(|(i, r)| (i as i64, r.clone()))
        .collect();
    assert_eq!(all, expected);
}

#[test]
fn test_interrupted_append_hands_over_nothing_until_finish() {
    let config = WriterConfig::new(512, 512, u32::MAX, false).unwrap();
    let old = numbered("old", 40);
    let before = write_file(config, &old);
    let mut writer = SlabWriter::append(&before, config).unwrap();
    let mut stored = before.clone();
    for rec in numbered("new", 200) {
        writer.add_record(&rec).unwrap();
        // a caller storing as it goes stores nothing before `finish`
        let out = writer.take_output();
        assert!(out.is_empty());
        stored.extend(out);
    }
    writer.flush_page().unwrap();
    assert!(writer.take_output().is_empty());
    // interrupted here: the file is as it was and reads as before
    assert_eq!(stored, before);
    let reader = SlabReader::open(stored.clone()).unwrap();
    assert_eq!(reader.get(39).unwrap(), old[39]);
    assert!(matches!(reader.get(40), Err(SlabError::OrdinalNotFound(40))));

    // once finished, everything emitted is handed over at once
    writer.finish().unwrap();
    let out = writer.take_output();
    assert!(!out.is_empty());
    stored.extend(out);
    let reader = SlabReader::open(stored).unwrap();
    assert_eq!(reader.get(40).unwrap(), b"new-000".to_vec());
    assert_eq!(reader.get(239).unwrap(), b"new-199".to_vec());
}

#[test]
fn test_new_writer_hands_over_pages_as_emitted() {
    let config = WriterConfig::new(512, 512, u32::MAX, false).unwrap();
    let mut writer = SlabWriter::new(config);
    let mut handed = 0usize;
    for rec in numbered("rec", 200) {
        writer.add_record(&rec).unwrap();
        handed += writer.take_output().len();
    }
    assert!(handed > 0);
    assert_eq!(handed % 512, 0);
}
