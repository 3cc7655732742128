use slabtastic::constants::{FOOTER_V1_SIZE, HEADER_SIZE, MAGIC};
use slabtastic::{Footer, Page, PageType, SlabError, SlabReader, SlabWriter, WriterConfig};

/// Writes `records` with `config` and returns the file's bytes.
fn write_all(config: WriterConfig, records: &[Vec<u8>]) -> Vec<u8> {
    let mut writer = SlabWriter::new(config);
    let mut bytes = Vec::new();
    for rec in records {
        writer.add_record(rec).unwrap();
        bytes.extend(writer.take_output());
    }
    writer.finish().unwrap();
    bytes.extend(writer.take_output());
    bytes
}

fn write_test_file(n: usize) -> (Vec<u8>, Vec<Vec<u8>>) {
    let records: Vec<Vec<u8>> = (0..n).map(|i| format!("rec-{i:04}").into_bytes()).collect();
    (write_all(WriterConfig::default(), &records), records)
}

#[test]
fn test_reader_basic() {
    let config = WriterConfig::default();
    let mut writer = SlabWriter::new(config);
    writer.add_record(b"alpha").unwrap();
    writer.add_record(b"beta").unwrap();
    writer.add_record(b"gamma").unwrap();
    writer.finish().unwrap();
    let bytes = writer.take_output();

    let reader = SlabReader::open(bytes).unwrap();
    assert_eq!(reader.get(0).unwrap(), b"alpha");
    assert_eq!(reader.get(1).unwrap(), b"beta");
    assert_eq!(reader.get(2).unwrap(), b"gamma");
    assert!(reader.get(3).is_err());
}

#[test]
fn test_batch_iter_size_one() {
    let (bytes, records) = write_test_file(5);
    let reader = SlabReader::open(bytes).unwrap();
    let mut iter = reader.batch_iter(1);

    for (i, expected) in records.iter().enumerate() {
        let batch = iter.next_batch().unwrap();
        assert_eq!(batch.len(), 1, "batch {i} should have 1 record");
        assert_eq!(&batch[0].1, expected);
    }
    let empty = iter.next_batch().unwrap();
    assert!(empty.is_empty(), "should be exhausted");
}

#[test]
fn test_batch_iter_size_total() {
    let (bytes, records) = write_test_file(5);
    let reader = SlabReader::open(bytes).unwrap();
    let mut iter = reader.batch_iter(5);

    let batch = iter.next_batch().unwrap();
    assert_eq!(batch.len(), 5);
    for (i, (ord, data)) in batch.iter().enumerate() {
        assert_eq!(*ord, i as i64);
        assert_eq!(data, &records[i]);
    }
    assert!(iter.next_batch().unwrap().is_empty());
}

#[test]
fn test_batch_iter_size_larger_than_total() {
    let (bytes, records) = write_test_file(3);
    let reader = SlabReader::open(bytes).unwrap();
    let mut iter = reader.batch_iter(100);

    let batch = iter.next_batch().unwrap();
    assert_eq!(batch.len(), 3);
    for (i, (_, data)) in batch.iter().enumerate() {
        assert_eq!(data, &records[i]);
    }
    assert!(iter.next_batch().unwrap().is_empty());
}

#[test]
fn test_read_all_to_sink() {
    let (bytes, records) = write_test_file(4);
    let reader = SlabReader::open(bytes).unwrap();
    let mut sink: Vec<u8> = Vec::new();
    let count = reader.read_all_to_sink(&mut sink).unwrap();
    assert_eq!(count, 4);

    let expected: Vec<u8> = records.iter().flat_map(|r| r.iter().copied()).collect();
    assert_eq!(sink, expected);
}

#[test]
fn test_writer_creates_valid_file() {
    let config = WriterConfig::default();
    let mut writer = SlabWriter::new(config);
    writer.add_record(b"hello").unwrap();
    writer.add_record(b"world").unwrap();
    writer.finish().unwrap();
    let data = writer.take_output();

    assert!(data.len() > HEADER_SIZE + FOOTER_V1_SIZE);
    let footer = Footer::read_from(&data[data.len() - FOOTER_V1_SIZE..]).unwrap();
    assert_eq!(footer.page_type, PageType::Pages);
}

#[test]
fn test_add_records_matches_sequential() {
    let data: Vec<Vec<u8>> = (0..10).map(|i| format!("item-{i}").into_bytes()).collect();
    let refs: Vec<&[u8]> = data.iter().map(|v| v.as_slice()).collect();

    let config = WriterConfig::default();
    let mut w = SlabWriter::new(config.clone());
    w.add_records(&refs).unwrap();
    w.finish().unwrap();
    let bulk = w.take_output();

    let mut w = SlabWriter::new(config);
    for d in &data {
        w.add_record(d).unwrap();
    }
    w.finish().unwrap();
    let seq = w.take_output();

    let r_bulk = SlabReader::open(bulk).unwrap();
    let r_seq = SlabReader::open(seq).unwrap();
    let all_bulk = r_bulk.iter().unwrap();
    let all_seq = r_seq.iter().unwrap();
    assert_eq!(all_bulk, all_seq);
}

#[test]
fn test_open_empty_file() {
    let result = SlabReader::open(Vec::new());
    assert!(result.is_err(), "opening an empty file should fail");
}

#[test]
fn test_open_single_byte_file() {
    let result = SlabReader::open(vec![0x42]);
    assert!(result.is_err(), "opening a 1-byte file should fail");
}

#[test]
fn test_open_truncated_to_header_only() {
    let mut data = MAGIC.to_vec();
    data.extend_from_slice(&100u32.to_le_bytes());
    let result = SlabReader::open(data);
    assert!(result.is_err(), "file with only a header should fail");
}

#[test]
fn test_open_corrupted_magic() {
    let mut writer = SlabWriter::new(WriterConfig::default());
    writer.add_record(b"test").unwrap();
    writer.finish().unwrap();
    let mut data = writer.take_output();
    data[0] = b'X';

    let reader = SlabReader::open(data).unwrap();
    let result = reader.get(0);
    assert!(result.is_err(), "corrupted data page magic should cause read failure");
}

#[test]
fn test_open_corrupted_pages_page_footer_version() {
    let mut writer = SlabWriter::new(WriterConfig::default());
    writer.add_record(b"test").unwrap();
    writer.finish().unwrap();
    let mut data = writer.take_output();
    let version_pos = data.len() - FOOTER_V1_SIZE + 13;
    data[version_pos] = 99;

    let result = SlabReader::open(data);
    assert!(result.is_err(), "corrupted version should reject file");
}

#[test]
fn test_open_corrupted_pages_page_type_to_data() {
    let mut writer = SlabWriter::new(WriterConfig::default());
    writer.add_record(b"test").unwrap();
    writer.finish().unwrap();
    let mut data = writer.take_output();
    let type_pos = data.len() - FOOTER_V1_SIZE + 12;
    data[type_pos] = PageType::Data as u8;

    let result = SlabReader::open(data);
    assert!(result.is_err(), "pages page with Data type should reject");
}

#[test]
fn test_open_file_ending_with_data_page_not_pages_page() {
    let mut page = Page::new(0, PageType::Data);
    page.add_record(b"hello");
    let bytes = page.serialize();

    let result = SlabReader::open(bytes);
    assert!(result.is_err(), "file ending with data page (not pages page) should fail");
}

#[test]
fn test_record_too_large_for_max_page() {
    let config = WriterConfig::new(512, 512, 512, false).unwrap();
    let mut writer = SlabWriter::new(config);

    let big = vec![0u8; 500];
    let result = writer.add_record(&big);
    assert!(
        matches!(result, Err(SlabError::RecordTooLarge { .. })),
        "expected RecordTooLarge, got {result:?}"
    );
}

#[test]
fn test_record_exactly_fits_page() {
    let config = WriterConfig::new(512, 512, 512, false).unwrap();
    let data = vec![0xAAu8; 480];
    let bytes = write_all(config, &[data.clone()]);

    let reader = SlabReader::open(bytes).unwrap();
    assert_eq!(reader.get(0).unwrap(), data);
}

#[test]
fn test_config_min_above_preferred() {
    let result = WriterConfig::new(1024, 512, 2048, false);
    assert!(result.is_err());
}

#[test]
fn test_config_preferred_above_max() {
    let result = WriterConfig::new(512, 2048, 1024, false);
    assert!(result.is_err());
}

#[test]
fn test_config_min_below_absolute_minimum() {
    let result = WriterConfig::new(256, 512, 1024, false);
    assert!(result.is_err());
}

#[test]
fn test_config_all_equal() {
    let config = WriterConfig::new(512, 512, 512, false).unwrap();
    assert_eq!(config.min_page_size, 512);
    assert_eq!(config.preferred_page_size, 512);
    assert_eq!(config.max_page_size, 512);
}

#[test]
fn test_alignment_with_various_record_sizes() {
    let config = WriterConfig::new(512, 512, u32::MAX, true).unwrap();
    let records = vec![b"a".to_vec(), b"bb".to_vec(), b"ccc".to_vec(), vec![0xDD; 400]];
    let bytes = write_all(config, &records);

    let reader = SlabReader::open(bytes).unwrap();
    assert_eq!(reader.get(0).unwrap(), b"a");
    assert_eq!(reader.get(1).unwrap(), b"bb");
    assert_eq!(reader.get(2).unwrap(), b"ccc");
    assert_eq!(reader.get(3).unwrap(), vec![0xDD; 400]);
}

#[test]
fn test_alignment_page_sizes_are_multiples() {
    let config = WriterConfig::new(512, 512, u32::MAX, true).unwrap();
    let data = write_all(config, &[b"short".to_vec()]);

    let reader = SlabReader::open(data.clone()).unwrap();
    let entries = reader.page_entries();
    if entries.len() == 1 {
        let file_len = data.len() as u64;
        let footer = Footer::read_from(&data[data.len() - FOOTER_V1_SIZE..]).unwrap();
        let pages_page_size = footer.page_size as u64;
        let data_page_end = file_len - pages_page_size;
        assert_eq!(
            data_page_end % 512,
            0,
            "data page size {} not aligned to 512",
            data_page_end
        );
    }
}

/// Appends `records` to the file `data` and returns the new file.
fn append_all(data: &[u8], config: WriterConfig, records: &[Vec<u8>]) -> Vec<u8> {
    let mut w = SlabWriter::append(data, config).unwrap();
    let mut out = data.to_vec();
    for rec in records {
        w.add_record(rec).unwrap();
    }
    w.finish().unwrap();
    out.extend(w.take_output());
    out
}

#[test]
fn test_multiple_appends() {
    let config = WriterConfig::default();
    let mut data = write_all(config.clone(), &[b"a".to_vec()]);

    for i in 1..=3u8 {
        data = append_all(&data, config.clone(), &[vec![b'a' + i]]);
    }

    let reader = SlabReader::open(data).unwrap();
    assert_eq!(reader.get(0).unwrap(), b"a");
    assert_eq!(reader.get(1).unwrap(), b"b");
    assert_eq!(reader.get(2).unwrap(), b"c");
    assert_eq!(reader.get(3).unwrap(), b"d");
}

#[test]
fn test_forward_traversal_matches_index() {
    let config = WriterConfig::new(512, 512, u32::MAX, false).unwrap();
    let records: Vec<Vec<u8>> = (0..100).map(|i| format!("record-{i:04}").into_bytes()).collect();
    let bytes = write_all(config, &records);

    let reader = SlabReader::open(bytes).unwrap();
    let entries = reader.page_entries();
    let file_len = reader.file_len();

    let mut offset: u64 = 0;
    let mut forward_offsets = Vec::new();
    while offset < file_len {
        let page = reader.read_page_at_offset(offset).unwrap();
        forward_offsets.push(offset);
        offset += page.footer.page_size as u64;
    }

    for entry in &entries {
        assert!(
            forward_offsets.contains(&(entry.file_offset as u64)),
            "index entry at offset {} not found in forward traversal",
            entry.file_offset
        );
    }

    let last_page = reader
        .read_page_at_offset(*forward_offsets.last().unwrap())
        .unwrap();
    assert_eq!(last_page.footer.page_type, PageType::Pages);
}

#[test]
fn test_repack_preserves_all_records() {
    let config = WriterConfig::new(512, 512, u32::MAX, false).unwrap();
    let records: Vec<Vec<u8>> = (0..50).map(|i| format!("item-{i:04}").into_bytes()).collect();
    let bytes = write_all(config, &records);

    let reader = SlabReader::open(bytes).unwrap();
    let all = reader.iter().unwrap();
    let data: Vec<Vec<u8>> = all.into_iter().map(|(_, d)| d).collect();
    let bytes2 = write_all(WriterConfig::default(), &data);

    let reader2 = SlabReader::open(bytes2).unwrap();
    for (i, expected) in records.iter().enumerate() {
        assert_eq!(reader2.get(i as i64).unwrap(), *expected);
    }
}

#[test]
fn test_reorder_sorts_correctly() {
    let config = WriterConfig::default();
    let records: Vec<Vec<u8>> = (0..20).map(|i| format!("val-{i}").into_bytes()).collect();
    let bytes = write_all(config.clone(), &records);

    let reader = SlabReader::open(bytes).unwrap();
    let mut records = reader.iter().unwrap();
    records.sort_by_key(|&(ord, _)| ord);
    let data: Vec<Vec<u8>> = records.into_iter().map(|(_, d)| d).collect();
    let bytes2 = write_all(config, &data);

    let reader2 = SlabReader::open(bytes2).unwrap();
    let all = reader2.iter().unwrap();
    for window in all.windows(2) {
        assert!(window[0].0 < window[1].0);
    }
}

#[test]
fn test_file_all_empty_records() {
    let records: Vec<Vec<u8>> = (0..100).map(|_| Vec::new()).collect();
    let bytes = write_all(WriterConfig::default(), &records);

    let reader = SlabReader::open(bytes).unwrap();
    for i in 0..100 {
        assert_eq!(reader.get(i).unwrap(), b"");
    }
}

#[test]
fn test_single_record_file() {
    let bytes = write_all(WriterConfig::default(), &[b"only-one".to_vec()]);

    let reader = SlabReader::open(bytes).unwrap();
    assert_eq!(reader.page_count(), 1);
    assert_eq!(reader.get(0).unwrap(), b"only-one");
    assert!(reader.get(1).is_err());
    assert!(reader.get(-1).is_err());

    let all = reader.iter().unwrap();
    assert_eq!(all.len(), 1);
    assert_eq!(all[0], (0, b"only-one".to_vec()));
}

#[test]
fn test_binary_data_all_byte_values() {
    let records: Vec<Vec<u8>> = (0..=255u8).map(|b| vec![b]).collect();
    let bytes = write_all(WriterConfig::default(), &records);

    let reader = SlabReader::open(bytes).unwrap();
    for b in 0..=255u8 {
        assert_eq!(reader.get(b as i64).unwrap(), vec![b]);
    }
}
