//! Pointers from one block of a table file to another.
use vstd::prelude::*;

use crate::coding::{get_varint, lemma_read_varint, lemma_varint_u64, put_varint, read_varint, varint};

verus! {

/// Where a block lies in a table file: its first byte and its length
/// (trailer not included).
#[derive(Clone, Copy, Debug, PartialEq, Eq, Structural)]
pub struct BlockHandle {
    pub offset: usize,
    pub size: usize,
}

/// The encoding of a handle: the varint of its offset, then of its size.
pub open spec fn handle_bytes(h: BlockHandle) -> Seq<u8> {
    varint(h.offset as nat) + varint(h.size as nat)
}

/// Reads a handle at the start of `s`, with the number of bytes it takes.
/// Each varint must take at most ten bytes and fit in a `usize`.
pub open spec fn parse_handle(s: Seq<u8>) -> Option<(BlockHandle, nat)> {
    match read_varint(s) {
        Some((o, n1)) => match read_varint(s.skip(n1 as int)) {
            Some((l, n2)) => if n1 <= 10 && n2 <= 10 && o <= usize::MAX && l <= usize::MAX {
                Some((BlockHandle { offset: o as usize, size: l as usize }, n1 + n2))
            } else {
                None
            },
            None => None,
        },
        None => None,
    }
}

impl BlockHandle {
    /// A handle to `size` bytes at `offset`.
    pub fn new(offset: usize, size: usize) -> (r: BlockHandle)
        ensures
            r.offset == offset,
            r.size == size,
    {
        BlockHandle { offset, size }
    }

    pub fn offset(&self) -> (r: usize)
        ensures
            r == self.offset,
    {
        self.offset
    }

    pub fn size(&self) -> (r: usize)
        ensures
            r == self.size,
    {
        self.size
    }

    /// Appends the encoding of this handle to `dst` and returns its length.
    pub fn encode_to(&self, dst: &mut Vec<u8>) -> (n: usize)
        ensures
            final(dst)@ == old(dst)@ + handle_bytes(*self),
            n == handle_bytes(*self).len(),
            n <= 20,
    {
        let start = dst.len();
        put_varint(dst, self.offset as u64);
        put_varint(dst, self.size as u64);
        proof {
            lemma_varint_u64(self.offset as u64);
            lemma_varint_u64(self.size as u64);
        }
        dst.len() - start
    }

    /// The encoding of this handle.
    pub fn encode(&self) -> (r: Vec<u8>)
        ensures
            r@ == handle_bytes(*self),
            r@.len() <= 20,
    {
        let mut v: Vec<u8> = Vec::new();
        self.encode_to(&mut v);
        assert(v@ =~= handle_bytes(*self));
        v
    }

    /// Reads a handle at `from[pos..]`: the handle and the number of bytes
    /// it takes, or `None` where `parse_handle` finds none.
    pub fn decode_at(from: &[u8], pos: usize) -> (r: Option<(BlockHandle, usize)>)
        requires
            pos <= from.len(),
        ensures
            match r {
                Some((h, n)) => parse_handle(from@.skip(pos as int)) == Some((h, n as nat)),
                None => parse_handle(from@.skip(pos as int)) is None,
            },
    {
        let s = Ghost(from@.skip(pos as int));
        match get_varint(from, pos, 10) {
            Some((o, n1)) => {
                proof {
                    lemma_read_varint_bounds(s@);
                    assert(from@.skip((pos + n1) as int) =~= s@.skip(n1 as int));
                }
                match get_varint(from, pos + n1, 10) {
                    Some((l, n2)) => {
                        if o > usize::MAX as u64 || l > usize::MAX as u64 {
                            return None;
                        }
                        Some((BlockHandle { offset: o as usize, size: l as usize }, n1 + n2))
                    },
                    None => None,
                }
            },
            None => None,
        }
    }

    /// Reads a handle at the start of `from`.
    pub fn decode(from: &[u8]) -> (r: Option<(BlockHandle, usize)>)
        ensures
            match r {
                Some((h, n)) => parse_handle(from@) == Some((h, n as nat)),
                None => parse_handle(from@) is None,
            },
    {
        assert(from@.skip(0) =~= from@);
        BlockHandle::decode_at(from, 0)
    }
}

proof fn lemma_read_varint_bounds(s: Seq<u8>)
    ensures
        read_varint(s) matches Some((v, n)) ==> 1 <= n <= s.len(),
    decreases s.len(),
{
    if s.len() > 0 {
        lemma_read_varint_bounds(s.drop_first());
    }
}

/// A handle reads back from its encoding, whatever follows it.
pub proof fn lemma_handle_roundtrip(h: BlockHandle, rest: Seq<u8>)
    ensures
        parse_handle(handle_bytes(h) + rest) == Some((h, handle_bytes(h).len())),
{
    let s = handle_bytes(h) + rest;
    lemma_read_varint(h.offset as nat, varint(h.size as nat) + rest);
    assert(s =~= varint(h.offset as nat) + (varint(h.size as nat) + rest));
    let n1 = varint(h.offset as nat).len();
    assert(s.skip(n1 as int) =~= varint(h.size as nat) + rest);
    lemma_read_varint(h.size as nat, rest);
    lemma_varint_u64(h.offset as u64);
    lemma_varint_u64(h.size as u64);
}

} // verus!
