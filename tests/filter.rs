use sstable::filter::hash_key;
use sstable::filter_block::{FilterBlockBuilder, FilterBlockReader};
use sstable::{BloomPolicy, FilterPolicy, NoFilterPolicy};

const BITS_PER_KEY: u32 = 12;

fn input_data() -> (Vec<u8>, Vec<usize>) {
    let mut concat = vec![];
    let mut offs = vec![];
    for d in [
        "abc123def456".as_bytes(),
        "xxx111xxx222".as_bytes(),
        "ab00cd00ab".as_bytes(),
        "908070605040302010".as_bytes(),
    ]
    .iter()
    {
        offs.push(concat.len());
        concat.extend_from_slice(d);
    }
    (concat, offs)
}

fn create_filter() -> Vec<u8> {
    let fpol = BloomPolicy::new(BITS_PER_KEY);
    let (data, offs) = input_data();
    let filter = fpol.create_filter(&data, &offs);
    assert_eq!(filter, vec![194, 148, 129, 140, 192, 196, 132, 164, 8]);
    filter
}

#[test]
fn test_filter_bloom() {
    let f = create_filter();
    let fp = BloomPolicy::new(BITS_PER_KEY);
    let (data, offs) = input_data();
    for i in 0..offs.len() {
        let end = if i + 1 < offs.len() { offs[i + 1] } else { data.len() };
        assert!(fp.key_may_match(&data[offs[i]..end], &f));
    }
}

#[test]
fn test_filter_bloom_hash() {
    let d1 = vec![0x62];
    let d2 = vec![0xc3, 0x97];
    let d3 = vec![0xe2, 0x99, 0xa5];
    let d4 = vec![0xe1, 0x80, 0xb9, 0x32];
    assert_eq!(hash_key(&d1), 0xef1345c4);
    assert_eq!(hash_key(&d2), 0x5b663814);
    assert_eq!(hash_key(&d3), 0x323c078f);
    assert_eq!(hash_key(&d4), 0xed21633a);
}

#[test]
fn bloom_probe_count_rounds() {
    let p = BloomPolicy::new(10);
    assert_eq!(p.k(), 7);
    assert_eq!(BloomPolicy::new(12).k(), 8);
    assert_eq!(BloomPolicy::new(0).k(), 1);
    assert_eq!(BloomPolicy::new(100).k(), 30);
    assert_eq!(p.name(), "leveldb.BuiltinBloomFilter2");
}

#[test]
fn bloom_small_filter_is_padded_and_matches_all_inserted() {
    let p = BloomPolicy::new(10);
    let keys = b"onetwothree".to_vec();
    let offs = vec![0, 3, 6];
    let f = p.create_filter(&keys, &offs);
    // Three keys of ten bits are under 64 bits: eight bytes, then k.
    assert_eq!(f.len(), 9);
    assert_eq!(f[8], 7);
    assert!(p.key_may_match(b"one", &f));
    assert!(p.key_may_match(b"two", &f));
    assert!(p.key_may_match(b"three", &f));
}

#[test]
fn bloom_filter_with_large_k_matches_everything() {
    let p = BloomPolicy::new(10);
    let f = vec![0u8, 0, 0, 0, 0, 0, 0, 0, 31];
    assert!(p.key_may_match(b"anything", &f));
    let f = vec![0u8, 0, 0, 0, 0, 0, 0, 0, 7];
    assert!(!p.key_may_match(b"anything", &f));
    assert!(p.key_may_match(b"anything", &[]));
}

#[test]
fn no_filter_policy_matches_everything() {
    let p = NoFilterPolicy::new();
    let f = p.create_filter(b"abc", &[0]);
    assert!(f.is_empty());
    assert!(p.key_may_match(b"xyz", &f));
    assert_eq!(p.name(), "_");
}

#[test]
fn filter_block_covers_each_range() {
    let policy = BloomPolicy::new(10);
    let mut b = FilterBlockBuilder::new(policy);
    b.add_key(b"apple");
    b.add_key(b"banana");
    // The next data block starts past 4 KiB: filters 0 and 1 are generated,
    // the second one empty.
    b.start_block(5000);
    b.add_key(b"cherry");
    let data = b.finish();
    assert_eq!(*data.last().unwrap(), 11);
    let r = FilterBlockReader::new(policy, data);
    assert_eq!(r.num(), 3);
    assert!(r.key_may_match(0, b"apple"));
    assert!(r.key_may_match(100, b"banana"));
    // An empty filter holds everything.
    assert!(r.key_may_match(2048, b"anything"));
    assert!(r.key_may_match(4096, b"cherry"));
    // Past the last filter every key may match.
    assert!(r.key_may_match(1 << 20, b"zzz"));
}
