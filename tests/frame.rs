use sstable::mask_crc;
use sstable::types::{check_trailer, verify_trailer, write_framed, TrailerCheck};

#[test]
fn framed_block_carries_masked_crc32c() {
    // The checksum covers the payload and the type byte: here "12345678"
    // and '9', whose CRC-32C is the well-known 0xe3069283.
    let mut out = vec![];
    write_framed(&mut out, b"12345678", b'9');
    assert_eq!(&out[..9], b"123456789");
    let stored = u32::from_le_bytes([out[9], out[10], out[11], out[12]]);
    assert_eq!(stored, mask_crc(0xe3069283));
}

#[test]
fn trailer_checks() {
    let mut out = vec![];
    write_framed(&mut out, b"payload", 0);
    assert!(matches!(verify_trailer(&out), TrailerCheck::Plain));
    let mut bad = out.clone();
    bad[2] ^= 0x10;
    assert!(matches!(verify_trailer(&bad), TrailerCheck::BadChecksum));

    let mut snappy = vec![];
    write_framed(&mut snappy, b"payload", 1);
    assert!(matches!(verify_trailer(&snappy), TrailerCheck::Unsupported));
    let mut other = vec![];
    write_framed(&mut other, b"payload", 7);
    assert!(matches!(verify_trailer(&other), TrailerCheck::BadType));

    // Given the checksum directly.
    let frame = [b'a', 0, 0, 0, 0, 0];
    assert!(matches!(check_trailer(&frame, 0x1234), TrailerCheck::BadChecksum));
    let m = mask_crc(0x1234).to_le_bytes();
    let frame = [b'a', 0, m[0], m[1], m[2], m[3]];
    assert!(matches!(check_trailer(&frame, 0x1234), TrailerCheck::Plain));
}
