use kv6::lsm::{BloomFilter, MemTable, SSTable, SSTableBuilder, SSTableReader};

/// The size and probe count that a filter for `n` items at false-positive
/// rate `p` gets.
fn sized_filter(n: usize, p: f64) -> BloomFilter {
    let m = if n == 0 {
        64
    } else {
        let m = (-(n as f64) * p.ln() / (2.0_f64.ln().powi(2))).ceil() as usize;
        m.max(64)
    };
    let k = if n == 0 {
        1
    } else {
        let k = ((m as f64 / n as f64) * 2.0_f64.ln()).round() as usize;
        k.clamp(1, 16)
    };
    BloomFilter::with_size(m, k)
}

/// A table built from `data`, opened, with the bytes of its file.
fn table_of(path: &str, data: &[(Vec<u8>, Vec<u8>)]) -> (SSTable, Vec<u8>) {
    let mut builder = SSTableBuilder::new(path);
    assert!(builder.fits(data));
    let bytes = builder.build(data);
    (SSTable::from_file_bytes(path.to_string(), bytes.clone()).unwrap(), bytes)
}

#[test]
fn test_bloom_filter_add_contains() {
    let mut bf = sized_filter(100, 0.1);
    bf.add(b"key1");
    bf.add(b"key2");
    bf.add(b"key3");

    assert!(bf.might_contain(b"key1"));
    assert!(bf.might_contain(b"key2"));
    assert!(bf.might_contain(b"key3"));
    assert!(!bf.might_contain(b"key4"));
}

#[test]
fn test_bloom_filter_serialization() {
    let mut bf = sized_filter(100, 0.1);
    bf.add(b"test_key");

    let bytes = bf.to_bytes();
    let bf2 = BloomFilter::from_bytes(&bytes).unwrap();

    assert!(bf2.might_contain(b"test_key"));
}

#[test]
fn bloom_sizing_and_bytes() {
    let bf = sized_filter(100, 0.1);
    assert_eq!(bf.word_count(), 8);
    let bytes = bf.to_bytes();
    assert_eq!(bytes.len(), 8 + 8 * 8);
    assert!(BloomFilter::from_bytes(&bytes[..15]).is_none());
    let empty = BloomFilter::with_size(64, 1);
    assert!(!empty.might_contain(b"anything"));
}

#[test]
fn test_memtable_put_get() {
    let mut mt = MemTable::new(100);
    mt.put(b"key1".to_vec(), b"value1".to_vec());
    mt.put(b"key2".to_vec(), b"value2".to_vec());

    assert_eq!(mt.get(b"key1"), Some(b"value1".to_vec()));
    assert_eq!(mt.get(b"key2"), Some(b"value2".to_vec()));
    assert_eq!(mt.get(b"key3"), None);
}

#[test]
fn test_memtable_flush() {
    let mut mt = MemTable::new(100);
    mt.put(b"key1".to_vec(), b"value1".to_vec());
    mt.put(b"key2".to_vec(), b"value2".to_vec());

    let flushed = mt.flush();
    assert_eq!(flushed.len(), 2);
    assert!(mt.is_empty());
}

#[test]
fn test_memtable_is_full() {
    let mut mt = MemTable::new(2);
    mt.put(b"key1".to_vec(), b"value1".to_vec());
    assert!(!mt.is_full());

    mt.put(b"key2".to_vec(), b"value2".to_vec());
    assert!(mt.is_full());
}

#[test]
fn memtable_keeps_every_put_and_flushes_sorted() {
    let mut mt = MemTable::new(10);
    mt.put(b"b".to_vec(), b"1".to_vec());
    mt.put(b"a".to_vec(), b"2".to_vec());
    mt.put(b"b".to_vec(), b"3".to_vec());
    assert_eq!(mt.get(b"b"), Some(b"3".to_vec()));
    assert_eq!(mt.len(), 3);
    let mut it = mt.iter();
    let first = it.next().unwrap();
    assert_eq!(first.0, b"b".to_vec());
    let flushed = mt.flush();
    assert_eq!(
        flushed,
        vec![(b"a".to_vec(), b"2".to_vec()), (b"b".to_vec(), b"1".to_vec()), (b"b".to_vec(), b"3".to_vec())]
    );
    assert_eq!(mt.len(), 0);
}

#[test]
fn test_sstable_builder() {
    let data = vec![
        (b"aaa".to_vec(), b"111".to_vec()),
        (b"bbb".to_vec(), b"222".to_vec()),
        (b"ccc".to_vec(), b"333".to_vec()),
    ];

    let mut builder = SSTableBuilder::new("test_builder.sst");
    let bytes = builder.build(&data);

    assert!(!bytes.is_empty());
    assert!(SSTable::from_file_bytes("test_builder.sst".to_string(), bytes).is_ok());
}

#[test]
fn test_sstable_build_and_read() {
    let data = vec![
        (b"key1".to_vec(), b"value1".to_vec()),
        (b"key2".to_vec(), b"value2".to_vec()),
        (b"key3".to_vec(), b"value3".to_vec()),
    ];

    let (ss, file) = table_of("test_sstable.sst", &data);

    assert_eq!(ss.get(b"key1", &file), Some(b"value1".to_vec()));
    assert_eq!(ss.get(b"key2", &file), Some(b"value2".to_vec()));
    assert_eq!(ss.get(b"key3", &file), Some(b"value3".to_vec()));
    assert_eq!(ss.get(b"key4", &file), None);
}

#[test]
fn sstable_scans_and_keys() {
    let data = vec![
        (b"a".to_vec(), b"1".to_vec()),
        (b"c".to_vec(), b"3".to_vec()),
        (b"e".to_vec(), b"5".to_vec()),
    ];
    let (ss, file) = table_of("scan.sst", &data);
    assert_eq!(ss.get_all_keys(), vec![b"a".to_vec(), b"c".to_vec(), b"e".to_vec()]);
    assert_eq!(
        ss.range_scan(b"b", b"e", &file),
        vec![(b"c".to_vec(), b"3".to_vec()), (b"e".to_vec(), b"5".to_vec())]
    );
    assert_eq!(ss.range_scan(b"b", b"d", &file), vec![(b"c".to_vec(), b"3".to_vec())]);
    // Values are read from the file as it is at the call: a file cut short
    // no longer holds them.
    assert_eq!(ss.get(b"e", &file[..2]), None);
    assert_eq!(
        ss.range_scan(b"a", b"z", &file[..2]),
        vec![(b"a".to_vec(), b"1".to_vec()), (b"c".to_vec(), b"3".to_vec())]
    );
    assert_eq!(ss.path(), "scan.sst");
    assert!(ss.get_bloom_filter().might_contain(b"e"));
}

#[test]
fn reader_prefers_newest_table() {
    let (old, old_file) = table_of("old.sst", &[(b"k".to_vec(), b"old".to_vec()), (b"x".to_vec(), b"1".to_vec())]);
    let (new, new_file) = table_of("new.sst", &[(b"k".to_vec(), b"new".to_vec())]);
    let mut reader = SSTableReader::new();
    reader.add_sstable(old);
    reader.add_sstable(new);
    assert_eq!(reader.paths(), vec!["old.sst".to_string(), "new.sst".to_string()]);
    let files = vec![Some(old_file.clone()), Some(new_file)];
    assert_eq!(reader.get(b"k", &files), Some(b"new".to_vec()));
    assert_eq!(reader.get(b"x", &files), Some(b"1".to_vec()));
    assert_eq!(reader.get(b"z", &files), None);
    assert_eq!(
        reader.range_scan(b"a", b"z", &files),
        vec![(b"k".to_vec(), b"old".to_vec()), (b"k".to_vec(), b"new".to_vec()), (b"x".to_vec(), b"1".to_vec())]
    );
    // A table whose file cannot be read answers nothing; older tables still do.
    let unread = vec![Some(old_file), None];
    assert_eq!(reader.get(b"k", &unread), Some(b"old".to_vec()));
    assert_eq!(
        reader.range_scan(b"a", b"z", &unread),
        vec![(b"k".to_vec(), b"old".to_vec()), (b"x".to_vec(), b"1".to_vec())]
    );
}

#[test]
fn truncated_table_is_refused() {
    let mut builder = SSTableBuilder::new("t.sst");
    let bytes = builder.build(&[(b"k".to_vec(), b"v".to_vec())]);
    assert!(SSTable::from_file_bytes("t.sst".to_string(), bytes[..10].to_vec()).is_err());
}

#[test]
fn empty_regions_open_wherever_they_point() {
    // A 16-byte trailer whose index and filter regions are empty but point
    // far past the end of the file: reading no bytes succeeds there.
    let mut file = Vec::new();
    for word in [1000u32, 0, 2000, 0] {
        file.extend_from_slice(&word.to_le_bytes());
    }
    let table = SSTable::from_file_bytes("e.sst".to_string(), file).unwrap();
    assert!(table.get_all_keys().is_empty());
    let mut file = Vec::new();
    for word in [1000u32, 1, 0, 0] {
        file.extend_from_slice(&word.to_le_bytes());
    }
    assert!(SSTable::from_file_bytes("e.sst".to_string(), file).is_err());
}

#[test]
fn bloom_adds_commute_and_repeat() {
    let mut ab = BloomFilter::with_size(256, 3);
    ab.add(b"a");
    ab.add(b"b");
    let mut ba = BloomFilter::with_size(256, 3);
    ba.add(b"b");
    ba.add(b"a");
    assert_eq!(ab.to_bytes(), ba.to_bytes());
    let once = ab.to_bytes();
    ab.add(b"a");
    assert_eq!(ab.to_bytes(), once);
}

#[test]
fn second_flush_returns_nothing() {
    let mut mt = MemTable::new(2);
    mt.put(b"k".to_vec(), b"v".to_vec());
    assert!(!mt.is_full());
    mt.put(b"k".to_vec(), b"w".to_vec());
    assert!(mt.is_full());
    assert_eq!(mt.flush().len(), 2);
    assert_eq!(mt.get(b"k"), None);
    assert!(mt.is_empty());
    assert!(mt.flush().is_empty());
}
