use sstable::blockhandle::BlockHandle;
use sstable::coding::{get_fixed32, get_varint, put_fixed32, put_fixed64, put_varint};
use sstable::footer::Footer;
use sstable::{mask_crc, unmask_crc};

#[test]
fn test_footer() {
    let f = Footer::new(BlockHandle::new(44, 4), BlockHandle::new(55, 5));
    let buf = f.encode();
    assert_eq!(buf.len(), 48);
    assert_eq!(&buf[40..], &[0x57, 0xfb, 0x80, 0x8b, 0x24, 0x75, 0x47, 0xdb]);

    let f2 = Footer::decode(&buf).unwrap();
    assert_eq!(f2.index.offset(), 55);
    assert_eq!(f2.index.size(), 5);
    assert_eq!(f2.meta_index.offset(), 44);
    assert_eq!(f2.meta_index.size(), 4);
}

#[test]
fn footer_with_bad_magic_is_corrupt() {
    let f = Footer::new(BlockHandle::new(1, 2), BlockHandle::new(3, 4));
    let mut buf = f.encode();
    buf[47] ^= 1;
    assert_eq!(Footer::decode(&buf).unwrap_err().code, sstable::StatusCode::Corruption);
    assert!(Footer::decode(&buf[..40]).is_err());
}

#[test]
fn varint_round_trip() {
    for v in [0u64, 1, 127, 128, 300, 16384, u32::MAX as u64, u64::MAX] {
        let mut buf = vec![];
        put_varint(&mut buf, v);
        buf.push(0xaa);
        let (w, n) = get_varint(&buf, 0, 10).unwrap();
        assert_eq!(w, v);
        assert_eq!(n, buf.len() - 1);
    }
    let mut buf = vec![];
    put_varint(&mut buf, 300);
    assert_eq!(buf, vec![0xac, 0x02]);
    assert!(get_varint(&[0x80, 0x80], 0, 10).is_none());
}

#[test]
fn fixed_ints_are_little_endian() {
    let mut buf = vec![];
    put_fixed32(&mut buf, 0x01020304);
    assert_eq!(buf, vec![4, 3, 2, 1]);
    assert_eq!(get_fixed32(&buf, 0), 0x01020304);
    let mut buf = vec![];
    put_fixed64(&mut buf, 0xdb4775248b80fb57);
    assert_eq!(buf, vec![0x57, 0xfb, 0x80, 0x8b, 0x24, 0x75, 0x47, 0xdb]);
}

#[test]
fn block_handle_round_trip() {
    let h = BlockHandle::new(4096, 300);
    let enc = h.encode();
    assert_eq!(enc, vec![0x80, 0x20, 0xac, 0x02]);
    let (h2, n) = BlockHandle::decode(&enc).unwrap();
    assert_eq!(h2, h);
    assert_eq!(n, 4);
}

#[test]
fn crc_mask_round_trip() {
    for c in [0u32, 1, 0xdeadbeef, u32::MAX] {
        assert_eq!(unmask_crc(mask_crc(c)), c);
        assert_ne!(mask_crc(c), c);
    }
    assert_eq!(mask_crc(0), 0xa282ead8);
}
