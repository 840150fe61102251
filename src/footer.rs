//! The fixed-size record at the end of a table file.
use vstd::prelude::*;

use crate::blockhandle::{handle_bytes, lemma_handle_roundtrip, parse_handle, BlockHandle};
use crate::error::{Result, Status, StatusCode};

verus! {

/// Length of the handle area of the footer, padding included.
pub const FOOTER_LENGTH: usize = 40;
/// Length of the footer, magic number included.
pub const FULL_FOOTER_LENGTH: usize = 48;
/// The magic number that ends every table file.
pub const MAGIC_FOOTER_NUMBER: u64 = 0xdb4775248b80fb57;

/// The little-endian bytes of the magic number.
pub open spec fn magic_bytes() -> Seq<u8> {
    seq![0x57u8, 0xfb, 0x80, 0x8b, 0x24, 0x75, 0x47, 0xdb]
}

/// Locates the metaindex block and the index block of a table.
#[derive(Clone, Copy, Debug, PartialEq, Eq, Structural)]
pub struct Footer {
    pub meta_index: BlockHandle,
    pub index: BlockHandle,
}

/// The 48 bytes of a footer: both handles, zero padding up to 40 bytes, and
/// the magic number.
pub open spec fn footer_bytes(f: Footer) -> Seq<u8> {
    let hs = handle_bytes(f.meta_index) + handle_bytes(f.index);
    hs + Seq::new((40 - hs.len()) as nat, |i: int| 0u8) + magic_bytes()
}

/// Reads a footer from `s`: at least 48 bytes, the magic number at 40..48,
/// and two handles from the start.
pub open spec fn parse_footer(s: Seq<u8>) -> Option<Footer> {
    if s.len() < 48 || s.subrange(40, 48) != magic_bytes() {
        None
    } else {
        match parse_handle(s) {
            Some((m, n1)) => match parse_handle(s.skip(n1 as int)) {
                Some((ix, n2)) => Some(Footer { meta_index: m, index: ix }),
                None => None,
            },
            None => None,
        }
    }
}

impl Footer {
    pub fn new(metaix: BlockHandle, index: BlockHandle) -> (r: Footer)
        ensures
            r.meta_index == metaix,
            r.index == index,
    {
        Footer { meta_index: metaix, index }
    }

    /// Reads a footer; fails with `Corruption` where `parse_footer` finds none.
    pub fn decode(from: &[u8]) -> (r: Result<Footer>)
        ensures
            match r {
                Ok(f) => parse_footer(from@) == Some(f),
                Err(e) => parse_footer(from@) is None && e.code == StatusCode::Corruption,
            },
    {
        if from.len() < FULL_FOOTER_LENGTH {
            return Err(Status::new(StatusCode::Corruption, "footer too short"));
        }
        let magic: [u8; 8] = [0x57, 0xfb, 0x80, 0x8b, 0x24, 0x75, 0x47, 0xdb];
        let mut i: usize = 0;
        while i < 8
            invariant
                i <= 8,
                from.len() >= 48,
                magic@ == magic_bytes(),
                forall|j: int| 0 <= j < i ==> from@[40 + j] == magic_bytes()[j],
            decreases 8 - i,
        {
            if from[FOOTER_LENGTH + i] != magic[i] {
                assert(from@.subrange(40, 48)[i as int] != magic_bytes()[i as int]);
                return Err(Status::new(StatusCode::Corruption, "bad magic number"));
            }
            i = i + 1;
        }
        assert(from@.subrange(40, 48) =~= magic_bytes());
        match BlockHandle::decode(from) {
            Some((m, n1)) => {
                match BlockHandle::decode_at(from, n1) {
                    Some((ix, _)) => Ok(Footer { meta_index: m, index: ix }),
                    None => Err(Status::new(StatusCode::Corruption, "bad index handle")),
                }
            },
            None => Err(Status::new(StatusCode::Corruption, "bad metaindex handle")),
        }
    }

    /// The 48 bytes of this footer.
    pub fn encode(&self) -> (r: Vec<u8>)
        ensures
            r@ == footer_bytes(*self),
            r@.len() == 48,
    {
        let mut to: Vec<u8> = Vec::with_capacity(FULL_FOOTER_LENGTH);
        let n1 = self.meta_index.encode_to(&mut to);
        let n2 = self.index.encode_to(&mut to);
        let hs = Ghost(handle_bytes(self.meta_index) + handle_bytes(self.index));
        assert(to@ =~= hs@);
        while to.len() < FOOTER_LENGTH
            invariant
                hs@.len() <= 40,
                to@.len() <= 40,
                to@.len() >= hs@.len(),
                to@ =~= hs@ + Seq::new((to@.len() - hs@.len()) as nat, |i: int| 0u8),
            decreases 40 - to@.len(),
        {
            to.push(0);
        }
        let magic: [u8; 8] = [0x57, 0xfb, 0x80, 0x8b, 0x24, 0x75, 0x47, 0xdb];
        let mut i: usize = 0;
        while i < 8
            invariant
                i <= 8,
                magic@ == magic_bytes(),
                to@ =~= hs@ + Seq::new((40 - hs@.len()) as nat, |i: int| 0u8) + magic_bytes().take(i as int),
            decreases 8 - i,
        {
            to.push(magic[i]);
            i = i + 1;
        }
        assert(magic_bytes().take(8) =~= magic_bytes());
        to
    }
}

/// A footer reads back from its encoding.
pub proof fn lemma_footer_roundtrip(f: Footer)
    ensures
        parse_footer(footer_bytes(f)) == Some(f),
{
    let s = footer_bytes(f);
    let hm = handle_bytes(f.meta_index);
    let hi = handle_bytes(f.index);
    let pad = Seq::new((40 - (hm + hi).len()) as nat, |i: int| 0u8);
    crate::coding::lemma_varint_u64(f.meta_index.offset as u64);
    crate::coding::lemma_varint_u64(f.meta_index.size as u64);
    crate::coding::lemma_varint_u64(f.index.offset as u64);
    crate::coding::lemma_varint_u64(f.index.size as u64);
    assert(s.subrange(40, 48) =~= magic_bytes());
    assert(s =~= hm + (hi + (pad + magic_bytes())));
    lemma_handle_roundtrip(f.meta_index, hi + (pad + magic_bytes()));
    assert(s.skip(hm.len() as int) =~= hi + (pad + magic_bytes()));
    lemma_handle_roundtrip(f.index, pad + magic_bytes());
}

} // verus!
