use sstable::{Cmp, DefaultCmp};
use std::cmp::Ordering;

#[test]
fn test_cmp_defaultcmp_shortest_sep() {
    assert_eq!(
        DefaultCmp.find_shortest_sep("abcd".as_bytes(), "abcf".as_bytes()),
        "abce".as_bytes()
    );
    assert_eq!(
        DefaultCmp.find_shortest_sep("abc".as_bytes(), "acd".as_bytes()),
        "abc\0".as_bytes()
    );
    assert_eq!(
        DefaultCmp.find_shortest_sep("abcdefghi".as_bytes(), "abcffghi".as_bytes()),
        "abce".as_bytes()
    );
    assert_eq!(
        DefaultCmp.find_shortest_sep("a".as_bytes(), "a".as_bytes()),
        "a".as_bytes()
    );
    assert_eq!(
        DefaultCmp.find_shortest_sep("a".as_bytes(), "b".as_bytes()),
        "a\0".as_bytes()
    );
    assert_eq!(
        DefaultCmp.find_shortest_sep("abc".as_bytes(), "zzz".as_bytes()),
        "b".as_bytes()
    );
    assert_eq!(
        DefaultCmp.find_shortest_sep("yyy".as_bytes(), "z".as_bytes()),
        "yyy\0".as_bytes()
    );
    assert_eq!(
        DefaultCmp.find_shortest_sep("".as_bytes(), "".as_bytes()),
        "".as_bytes()
    );
}

#[test]
fn test_cmp_defaultcmp_short_succ() {
    assert_eq!(DefaultCmp.find_short_succ("abcd".as_bytes()), "b".as_bytes());
    assert_eq!(DefaultCmp.find_short_succ("zzzz".as_bytes()), "{".as_bytes());
    assert_eq!(DefaultCmp.find_short_succ(&[]), &[0xff]);
    assert_eq!(
        DefaultCmp.find_short_succ(&[0xff, 0xff, 0xff]),
        &[0xff, 0xff, 0xff, 0xff]
    );
}

#[test]
fn test_shortest_sep() {
    assert_eq!(
        DefaultCmp.find_shortest_sep("abcd".as_bytes(), "abcf".as_bytes()),
        "abce".as_bytes()
    );
    assert_eq!(
        DefaultCmp.find_shortest_sep("abcdefghi".as_bytes(), "abcffghi".as_bytes()),
        "abce".as_bytes()
    );
    assert_eq!(
        DefaultCmp.find_shortest_sep("a".as_bytes(), "a".as_bytes()),
        "a".as_bytes()
    );
    // The separator rule appends a zero byte where the first differing bytes
    // are adjacent.
    assert_eq!(
        DefaultCmp.find_shortest_sep("a".as_bytes(), "b".as_bytes()),
        "a\0".as_bytes()
    );
    assert_eq!(
        DefaultCmp.find_shortest_sep("abc".as_bytes(), "zzz".as_bytes()),
        "b".as_bytes()
    );
    assert_eq!(
        DefaultCmp.find_shortest_sep("".as_bytes(), "".as_bytes()),
        "".as_bytes()
    );
}

#[test]
fn separator_between_adjacent_blocks() {
    // "abd" and "bcd" differ at the first byte, and 'a' + 1 == 'b' is not
    // below 'b', so the rule appends a zero byte.
    assert_eq!(
        DefaultCmp.find_shortest_sep("abd".as_bytes(), "bcd".as_bytes()),
        "abd\0".as_bytes()
    );
    let s = DefaultCmp.find_shortest_sep("abd".as_bytes(), "bcd".as_bytes());
    assert!(b"abd".as_slice() <= s.as_slice());
    assert!(s.as_slice() < b"bcd".as_slice());
}

#[test]
fn comparator_orders_bytewise() {
    assert_eq!(DefaultCmp.cmp(b"abc", b"abd"), Ordering::Less);
    assert_eq!(DefaultCmp.cmp(b"abc", b"abc"), Ordering::Equal);
    assert_eq!(DefaultCmp.cmp(b"abcd", b"abc"), Ordering::Greater);
    assert_eq!(DefaultCmp.cmp(b"", b"a"), Ordering::Less);
    assert_eq!(DefaultCmp.cmp(b"b", b"abc"), Ordering::Greater);
    assert_eq!(DefaultCmp.id(), "leveldb.BytewiseComparator");
}
