use sstable::block::Block;
use sstable::{current_key_val, CompressionType, Options, StatusCode, Table, TableBuilder, TableIterator};

fn build_data() -> Vec<(&'static str, &'static str)> {
    vec![
        // block 1
        ("abc", "def"),
        ("abd", "dee"),
        ("bcd", "asa"),
        // block 2
        ("bsr", "a00"),
        ("xyz", "xxx"),
        ("xzz", "yyy"),
        // block 3
        ("zzz", "111"),
    ]
}

fn build_table(data: Vec<(&'static str, &'static str)>) -> (Vec<u8>, usize) {
    let mut opt = Options::default();
    opt.block_restart_interval = 2;
    opt.block_size = 32;
    opt.compression_type = CompressionType::CompressionSnappy;
    let mut b = TableBuilder::new(opt);
    for &(k, v) in data.iter() {
        b.add(k.as_bytes(), v.as_bytes()).unwrap();
    }
    let d = b.finish().unwrap();
    let size = d.len();
    (d, size)
}

fn all_entries(iter: &mut TableIterator) -> Vec<(Vec<u8>, Vec<u8>)> {
    let mut out = vec![];
    while let Some(kv) = iter.next() {
        out.push(kv);
    }
    out
}

#[test]
fn test_table_builder() {
    let mut opt = Options::default();
    opt.block_restart_interval = 3;
    let mut b = TableBuilder::new(opt);
    let data = vec![("abc", "def"), ("abd", "dee"), ("bcd", "asa"), ("bsr", "a00")];
    for &(k, v) in data.iter() {
        b.add(k.as_bytes(), v.as_bytes()).unwrap();
    }
    assert_eq!(b.entries(), 4);
    let out = b.finish().unwrap();
    assert!(out.len() > 48);
}

#[test]
fn test_bad_input() {
    let mut opt = Options::default();
    opt.block_restart_interval = 3;
    let mut b = TableBuilder::new(opt);
    // Two equal consecutive keys.
    let data = vec![("abc", "def"), ("abc", "dee"), ("bcd", "asa"), ("bsr", "a00")];
    assert!(b.add(data[0].0.as_bytes(), data[0].1.as_bytes()).is_ok());
    let e = b.add(data[1].0.as_bytes(), data[1].1.as_bytes()).unwrap_err();
    assert_eq!(e.code, StatusCode::InvalidArgument);
    assert!(b.add(b"abb", b"x").is_err());
    assert!(b.add(data[2].0.as_bytes(), data[2].1.as_bytes()).is_ok());
    assert_eq!(b.entries(), 2);
}

#[test]
fn test_table_approximate_offset() {
    let (src, size) = build_table(build_data());
    let mut opt = Options::default();
    opt.block_size = 32;
    let table = Table::new(opt, src, size).unwrap();
    let mut iter = table.iter();

    // Blocks are stored uncompressed: 37 + 5, 39 + 5 and 17 + 5 bytes.
    let expected_offsets = vec![0, 0, 0, 42, 42, 42, 86];
    let entries = all_entries(&mut iter);
    assert_eq!(entries.len(), 7);
    for (i, (k, _)) in entries.iter().enumerate() {
        assert_eq!(expected_offsets[i], table.approx_offset_of(k));
    }
    // Key-past-last returns offset of metaindex block.
    assert_eq!(132, table.approx_offset_of("{aa".as_bytes()));
}

#[test]
fn test_table_block_cache_use() {
    let (src, size) = build_table(build_data());
    let mut opt = Options::default();
    opt.block_size = 32;
    let table = Table::new(opt, src, size).unwrap();
    let mut iter = table.iter();

    // index/metaindex blocks are not cached.
    assert_eq!(table.cache_count(), 0);
    assert_eq!(iter.cache_count(), 0);

    iter.next();
    assert_eq!(iter.cache_count(), 1);

    iter.next();
    iter.next();
    iter.next();
    iter.next();
    assert_eq!(iter.cache_count(), 2);
}

#[test]
fn test_table_iterator_fwd_bwd() {
    let (src, size) = build_table(build_data());
    let data = build_data();
    let table = Table::new(Options::default(), src, size).unwrap();
    let mut iter = table.iter();
    let mut i = 0;

    while let Some((k, v)) = iter.next() {
        assert_eq!((data[i].0.as_bytes(), data[i].1.as_bytes()), (k.as_ref(), v.as_ref()));
        i += 1;
    }
    assert_eq!(i, data.len());
    assert!(!iter.valid());

    // Go forward again, to last entry.
    while let Some((key, _)) = iter.next() {
        if key.as_slice() == b"zzz" {
            break;
        }
    }
    assert!(iter.valid());
    let mut j = 0;
    while iter.prev() {
        if let Some((k, v)) = current_key_val(&iter) {
            j += 1;
            assert_eq!(
                (data[data.len() - 1 - j].0.as_bytes(), data[data.len() - 1 - j].1.as_bytes()),
                (k.as_ref(), v.as_ref())
            );
        } else {
            break;
        }
    }
    assert_eq!(j, 6);
}

#[test]
fn test_table_iterator_filter() {
    let (src, size) = build_table(build_data());
    let table = Table::new(Options::default(), src, size).unwrap();
    assert!(table.has_filter());
    let filter_reader = table.filters().unwrap();
    let mut iter = table.iter();
    loop {
        if let Some((k, _)) = iter.next() {
            assert!(filter_reader.key_may_match(iter.current_block_offset(), &k));
            assert!(!filter_reader.key_may_match(iter.current_block_offset(), b"somerandomkey"));
        } else {
            break;
        }
    }
}

#[test]
fn test_table_iterator_state_behavior() {
    let (src, size) = build_table(build_data());
    let table = Table::new(Options::default(), src, size).unwrap();
    let mut iter = table.iter();

    assert!(!iter.valid());
    assert!(current_key_val(&iter).is_none());
    assert!(!iter.prev());

    assert!(iter.advance());
    let first = current_key_val(&iter);
    assert!(iter.valid());
    assert!(current_key_val(&iter).is_some());

    assert!(iter.advance());
    assert!(iter.prev());
    assert!(iter.valid());

    iter.reset();
    assert!(!iter.valid());
    assert!(current_key_val(&iter).is_none());
    assert_eq!(first, iter.next());
}

fn check_iterator_properties(mut it: TableIterator) {
    assert!(!it.valid());
    assert!(it.advance());
    assert!(it.valid());
    let first = current_key_val(&it);
    assert!(it.advance());
    let second = current_key_val(&it);
    assert!(it.advance());
    let third = current_key_val(&it);
    // fourth (last) element
    assert!(it.advance());
    assert!(it.valid());
    let fourth = current_key_val(&it);
    // past end is invalid
    assert!(!it.advance());
    assert!(!it.valid());

    it.reset();
    it.seek(&fourth.as_ref().unwrap().0);
    assert!(it.valid());
    it.seek(&second.as_ref().unwrap().0);
    assert!(it.valid());
    it.prev();
    assert_eq!(first, current_key_val(&it));

    it.reset();
    assert!(!it.valid());
    assert!(it.advance());
    assert_eq!(first, current_key_val(&it));
    assert!(it.advance());
    assert_eq!(second, current_key_val(&it));
    assert!(it.advance());
    assert_eq!(third, current_key_val(&it));
    assert!(it.prev());
    assert_eq!(second, current_key_val(&it));
    assert!(it.prev());
    assert_eq!(first, current_key_val(&it));
    assert!(!it.prev());
    assert!(!it.valid());
}

#[test]
fn test_table_iterator_behavior_standard() {
    let mut data = build_data();
    data.truncate(4);
    let (src, size) = build_table(data);
    let table = Table::new(Options::default(), src, size).unwrap();
    check_iterator_properties(table.iter());
}

#[test]
fn test_table_iterator_values() {
    let (src, size) = build_table(build_data());
    let data = build_data();
    let table = Table::new(Options::default(), src, size).unwrap();
    let mut iter = table.iter();
    let mut i = 0;

    iter.next();
    iter.next();

    // Go back to previous entry, check, go forward two entries, repeat.
    loop {
        iter.prev();
        if let Some((k, v)) = current_key_val(&iter) {
            assert_eq!((data[i].0.as_bytes(), data[i].1.as_bytes()), (k.as_ref(), v.as_ref()));
        } else {
            break;
        }
        i += 1;
        if iter.next().is_none() || iter.next().is_none() {
            break;
        }
    }
    assert_eq!(i, 6);
}

#[test]
fn test_table_iterator_seek() {
    let (src, size) = build_table(build_data());
    let table = Table::new(Options::default(), src, size).unwrap();
    let mut iter = table.iter();

    iter.seek(b"bcd");
    assert!(iter.valid());
    assert_eq!(current_key_val(&iter), Some((b"bcd".to_vec(), b"asa".to_vec())));
    iter.seek(b"abc");
    assert!(iter.valid());
    assert_eq!(current_key_val(&iter), Some((b"abc".to_vec(), b"def".to_vec())));

    // Seek-past-last invalidates.
    iter.seek("{{{".as_bytes());
    assert!(!iter.valid());
    iter.seek(b"bbb");
    assert!(iter.valid());
}

#[test]
fn test_table_get() {
    let (src, size) = build_table(build_data());
    let mut table = Table::new(Options::default(), src, size).unwrap();
    let mut table2 = table.duplicate();

    let mut iter = table.iter();
    for (k, v) in all_entries(&mut iter) {
        let r = table2.get(&k);
        assert_eq!(Ok(Some(v)), r);
    }
    assert_eq!(table2.cache_count(), 3);

    // Filters and blocks show these keys absent.
    assert!(table.get(b"aaa").unwrap().is_none());
    assert!(table.get(b"aaaa").unwrap().is_none());
    assert!(table.get(b"aa").unwrap().is_none());
    assert!(table.get(b"abcd").unwrap().is_none());
    assert!(table.get(b"abb").unwrap().is_none());
    assert!(table.get(b"xyy").unwrap().is_none());
    assert!(table.get(b"zzy").unwrap().is_none());
    assert!(table.get(b"zz1").unwrap().is_none());
    assert!(table.get("zz{".as_bytes()).unwrap().is_none());
}

#[test]
fn test_table_reader_checksum() {
    let (mut src, size) = build_table(build_data());
    src[10] += 1;

    let mut table = Table::new(Options::default(), src, size).unwrap();
    assert!(table.has_filter());
    assert_eq!(table.filters().unwrap().num(), 1);

    // The first block fails its checksum: a lookup there reports it, and
    // iteration stops at it rather than skipping it.
    let e = table.get(b"abc").unwrap_err();
    assert_eq!(e.code, StatusCode::Corruption);
    assert_eq!(table.get(b"bsr"), Ok(Some(b"a00".to_vec())));
    let mut iter = table.iter();
    assert_eq!(all_entries(&mut iter).len(), 0);
    assert!(!iter.valid());
    iter.seek(b"xyz");
    assert_eq!(current_key_val(&iter), Some((b"xyz".to_vec(), b"xxx".to_vec())));
}

#[test]
fn tiny_table_lookups_and_reverse_iteration() {
    let (src, size) = build_table(build_data());
    let mut table = Table::new(Options::default(), src, size).unwrap();
    assert_eq!(table.get(b"abc"), Ok(Some(b"def".to_vec())));
    assert_eq!(table.get(b"zzz"), Ok(Some(b"111".to_vec())));
    assert_eq!(table.get(b"xyy"), Ok(None));
}

#[test]
fn empty_key_round_trips() {
    let mut b = TableBuilder::new(Options::default());
    b.add(b"", b"v").unwrap();
    let src = b.finish().unwrap();
    let size = src.len();
    let mut table = Table::new(Options::default(), src, size).unwrap();
    assert_eq!(table.approx_offset_of(b""), 0);
    assert_eq!(table.get(b""), Ok(Some(b"v".to_vec())));
    let mut iter = table.iter();
    assert_eq!(all_entries(&mut iter), vec![(vec![], b"v".to_vec())]);
}

#[test]
fn round_trip_many_entries() {
    let mut opt = Options::default();
    opt.block_size = 64;
    opt.block_restart_interval = 3;
    let mut b = TableBuilder::new(opt);
    let mut expected = vec![];
    for i in 0..500u32 {
        let k = format!("key{:05}", i * 7).into_bytes();
        let v = format!("value{}", i).into_bytes();
        b.add(&k, &v).unwrap();
        expected.push((k, v));
    }
    let src = b.finish().unwrap();
    let size = src.len();
    let mut table = Table::new(Options::default(), src, size).unwrap();
    let mut iter = table.iter();
    assert_eq!(all_entries(&mut iter), expected);
    for (k, v) in expected.iter() {
        assert_eq!(table.get(k), Ok(Some(v.clone())));
    }
    assert_eq!(table.get(b"key00001"), Ok(None));
    assert_eq!(table.get(b"zzz"), Ok(None));
}

#[test]
fn cache_reuse_and_distinct_ids() {
    let (src, size) = build_table(build_data());
    let mut opt = Options::default();
    let id_before = opt.block_cache.next_id();
    let mut table = Table::new(opt, src.clone(), size).unwrap();
    assert_eq!(table.cache_id(), id_before);
    assert_eq!(table.cache_count(), 0);
    table.get(b"abc").unwrap();
    assert_eq!(table.cache_count(), 1);
    table.get(b"abd").unwrap();
    assert_eq!(table.cache_count(), 1);

    opt = Options::default();
    let mut cache = opt.block_cache;
    let first = cache.new_cache_id();
    let second = cache.new_cache_id();
    assert!(first < second);
}

#[test]
fn table_too_short_is_corrupt() {
    let e = Table::new(Options::default(), vec![0u8; 10], 10).err().unwrap();
    assert_eq!(e.code, StatusCode::Corruption);
}

#[test]
fn block_builder_round_trip() {
    let mut bb = sstable::block::BlockBuilder::new(2);
    bb.add(b"apple", b"1");
    bb.add(b"apply", b"2");
    bb.add(b"banana", b"3");
    let bytes = bb.finish();
    let block = Block::new(&bytes).unwrap();
    assert_eq!(block.len(), 3);
    let mut it = block.iter();
    assert!(it.advance());
    assert_eq!(it.current_key(), Some(&b"apple"[..]));
    assert!(it.advance());
    assert!(it.advance());
    assert!(!it.advance());
    it.seek(b"apply");
    assert_eq!(it.current_key(), Some(&b"apply"[..]));
    assert!(it.advance());
    assert!(it.prev());
    assert_eq!(it.current_key(), Some(&b"apply"[..]));
    it.seek(b"b");
    assert_eq!(it.current_key(), Some(&b"banana"[..]));
    it.seek(b"c");
    assert!(!it.valid());
    assert!(Block::new(&[1, 0]).is_err());
}

#[test]
fn options_and_compression_types() {
    assert_eq!(sstable::int_to_compressiontype(0), Some(CompressionType::CompressionNone));
    assert_eq!(sstable::int_to_compressiontype(1), Some(CompressionType::CompressionSnappy));
    assert_eq!(sstable::int_to_compressiontype(2), None);
    let opt = Options::default();
    assert_eq!(opt.block_size, 4096);
    assert_eq!(opt.block_restart_interval, 16);
    let opt = opt.with_cache_capacity(1);
    let (src, size) = build_table(build_data());
    let mut table = Table::new(opt, src, size).unwrap();
    table.get(b"abc").unwrap();
    table.get(b"zzz").unwrap();
    // A cache of one block keeps only the block used last.
    assert_eq!(table.cache_count(), 1);
}

#[test]
fn builder_size_estimate_grows() {
    let mut b = TableBuilder::new(Options::default());
    let s0 = b.size_estimate();
    assert_eq!(s0, 8);
    b.add(b"k", b"v").unwrap();
    // One entry of 1 + 1 + 1 header bytes, key and value, then the restart array.
    assert_eq!(b.size_estimate(), 5 + 8);
}

#[test]
fn add_beyond_size_budget_is_rejected() {
    let mut b = TableBuilder::new(Options::default());
    let big = vec![7u8; 0x1000_0000];
    let e = b.add(b"k", &big).unwrap_err();
    assert_eq!(e.code, StatusCode::InvalidArgument);
    assert_eq!(b.entries(), 0);
    b.add(b"k", b"v").unwrap();
    assert!(b.finish().is_ok());
}

#[test]
fn corrupt_index_block_reports_corruption() {
    let (mut src, size) = build_table(build_data());
    // The index block ends just before the 48-byte footer; flip a byte of its trailer.
    src[size - 48 - 2] ^= 0x01;
    let e = Table::new(Options::default(), src, size).err().unwrap();
    assert_eq!(e.code, StatusCode::Corruption);
}

#[test]
fn tables_opened_with_one_cache_get_distinct_ids() {
    let (src, size) = build_table(build_data());
    let t1 = Table::new(Options::default(), src.clone(), size).unwrap();
    let id1 = t1.cache_id();
    let mut opt = Options::default();
    opt.block_cache = t1.release_cache();
    let t2 = Table::new(opt, src, size).unwrap();
    assert!(t2.cache_id() > id1);
}
