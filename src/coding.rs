//! Unsigned LEB128 varints and fixed-width little-endian integers.
use vstd::prelude::*;

verus! {

/// The varint encoding of `v`: seven bits per byte, low bits first, the high
/// bit set on every byte but the last.
pub open spec fn varint(v: nat) -> Seq<u8>
    decreases v,
{
    if v < 128 {
        seq![v as u8]
    } else {
        seq![(v % 128 + 128) as u8] + varint(v / 128)
    }
}

/// Reads a varint at the start of `s`: its value and the number of bytes it
/// takes, or `None` when `s` ends inside it.
pub open spec fn read_varint(s: Seq<u8>) -> Option<(nat, nat)>
    decreases s.len(),
{
    if s.len() == 0 {
        None
    } else if s[0] < 128 {
        Some((s[0] as nat, 1))
    } else {
        match read_varint(s.drop_first()) {
            Some((v, n)) => Some((((s[0] - 128) + 128 * v) as nat, n + 1)),
            None => None,
        }
    }
}

/// `128` to the power `k`.
pub open spec fn pow128(k: nat) -> nat
    decreases k,
{
    if k == 0 {
        1
    } else {
        128 * pow128((k - 1) as nat)
    }
}

/// A varint reads back as the value it encodes, whatever follows it.
pub proof fn lemma_read_varint(v: nat, rest: Seq<u8>)
    ensures
        read_varint(varint(v) + rest) == Some((v, varint(v).len())),
        varint(v).len() >= 1,
    decreases v,
{
    let s = varint(v) + rest;
    if v >= 128 {
        lemma_read_varint(v / 128, rest);
        assert(s.drop_first() =~= varint(v / 128) + rest);
    }
}

/// A value below `128^k` takes at most `k` bytes.
pub proof fn lemma_varint_len(v: nat, k: nat)
    requires
        v < pow128(k),
        k >= 1,
    ensures
        varint(v).len() <= k,
    decreases v,
{
    if v >= 128 {
        assert(k >= 2) by {
            if k <= 1 {
                reveal_with_fuel(pow128, 2);
            }
        }
        assert(v / 128 < pow128((k - 1) as nat)) by (nonlinear_arith)
            requires
                v < 128 * pow128((k - 1) as nat),
        ;
        lemma_varint_len(v / 128, (k - 1) as nat);
    }
}

/// Every `u64` takes at most ten bytes.
pub proof fn lemma_varint_u64(v: u64)
    ensures
        varint(v as nat).len() <= 10,
{
    reveal_with_fuel(pow128, 11);
    assert(pow128(10) == 0x40_0000_0000_0000_0000_nat);
    lemma_varint_len(v as nat, 10);
}

/// Appends the varint encoding of `v` to `dst`.
pub fn put_varint(dst: &mut Vec<u8>, v: u64)
    ensures
        final(dst)@ == old(dst)@ + varint(v as nat),
{
    let mut x: u64 = v;
    while x >= 128
        invariant
            dst@ + varint(x as nat) == old(dst)@ + varint(v as nat),
        decreases x,
    {
        let b: u8 = (x % 128 + 128) as u8;
        proof {
            assert(varint(x as nat) == seq![b] + varint((x / 128) as nat));
            assert(dst@.push(b) + varint((x / 128) as nat) =~= dst@ + varint(x as nat));
        }
        dst.push(b);
        x = x / 128;
    }
    proof {
        assert(varint(x as nat) == seq![x as u8]);
        assert(dst@.push(x as u8) =~= dst@ + varint(x as nat));
    }
    dst.push(x as u8);
}

/// Reads a varint of at most `max` bytes starting at `s[pos]`. It succeeds
/// exactly when `read_varint` finds one of at most `max` bytes whose value
/// fits in a `u64`.
pub fn get_varint(s: &[u8], pos: usize, max: usize) -> (r: Option<(u64, usize)>)
    requires
        pos <= s.len(),
    ensures
        match r {
            Some((v, n)) => read_varint(s@.skip(pos as int)) == Some((v as nat, n as nat)) && n <= max,
            None => !(read_varint(s@.skip(pos as int)) matches Some((v, n)) && n <= max && v <= u64::MAX),
        },
    decreases max,
{
    if max == 0 || pos >= s.len() {
        proof {
            lemma_read_varint_len(s@.skip(pos as int));
        }
        return None;
    }
    let b = s[pos];
    if b < 128 {
        return Some((b as u64, 1));
    }
    proof {
        assert(s@.skip(pos as int).drop_first() =~= s@.skip(pos + 1));
    }
    match get_varint(s, pos + 1, max - 1) {
        Some((v, n)) => {
            if v < 0x200_0000_0000_0000 {
                Some((((b - 128) as u64) + 128 * v, n + 1))
            } else {
                None
            }
        },
        None => None,
    }
}

proof fn lemma_read_varint_len(s: Seq<u8>)
    ensures
        read_varint(s) matches Some((v, n)) ==> 1 <= n <= s.len(),
    decreases s.len(),
{
    if s.len() > 0 {
        lemma_read_varint_len(s.drop_first());
    }
}

/// The four little-endian bytes of `v`.
pub open spec fn le32(v: u32) -> Seq<u8> {
    seq![(v & 0xff) as u8, ((v >> 8) & 0xff) as u8, ((v >> 16) & 0xff) as u8, ((v >> 24) & 0xff) as u8]
}

/// The `u32` whose little-endian bytes are `s[0..4]`.
pub open spec fn u32_of_le(s: Seq<u8>) -> u32
    recommends
        s.len() >= 4,
{
    (s[0] as u32) | ((s[1] as u32) << 8) | ((s[2] as u32) << 16) | ((s[3] as u32) << 24)
}

/// The eight little-endian bytes of `v`.
pub open spec fn le64(v: u64) -> Seq<u8> {
    le32((v & 0xffff_ffff) as u32) + le32((v >> 32) as u32)
}

/// Appends the four little-endian bytes of `v` to `dst`.
pub fn put_fixed32(dst: &mut Vec<u8>, v: u32)
    ensures
        final(dst)@ == old(dst)@ + le32(v),
{
    dst.push((v & 0xff) as u8);
    dst.push(((v >> 8) & 0xff) as u8);
    dst.push(((v >> 16) & 0xff) as u8);
    dst.push(((v >> 24) & 0xff) as u8);
    assert(dst@ =~= old(dst)@ + le32(v));
}

/// Appends the eight little-endian bytes of `v` to `dst`.
pub fn put_fixed64(dst: &mut Vec<u8>, v: u64)
    ensures
        final(dst)@ == old(dst)@ + le64(v),
{
    put_fixed32(dst, (v & 0xffff_ffff) as u32);
    put_fixed32(dst, (v >> 32) as u32);
    assert(dst@ =~= old(dst)@ + le64(v));
}

/// Reads the little-endian `u32` at `s[pos..pos + 4]`.
pub fn get_fixed32(s: &[u8], pos: usize) -> (r: u32)
    requires
        pos + 4 <= s.len(),
    ensures
        r == u32_of_le(s@.skip(pos as int)),
{
    (s[pos] as u32) | ((s[pos + 1] as u32) << 8) | ((s[pos + 2] as u32) << 16) | ((s[pos + 3] as u32) << 24)
}

/// Four little-endian bytes read back as the integer they encode.
pub proof fn lemma_fixed32_roundtrip(v: u32, rest: Seq<u8>)
    ensures
        u32_of_le(le32(v) + rest) == v,
{
    let s = le32(v) + rest;
    let (b0, b1, b2, b3) = ((v & 0xff) as u8, ((v >> 8) & 0xff) as u8, ((v >> 16) & 0xff) as u8, ((v >> 24) & 0xff) as u8);
    assert(s[0] == b0 && s[1] == b1 && s[2] == b2 && s[3] == b3);
    assert((b0 as u32) | ((b1 as u32) << 8) | ((b2 as u32) << 16) | ((b3 as u32) << 24) == v) by (bit_vector)
        requires
            b0 == (v & 0xff) as u8,
            b1 == ((v >> 8) & 0xff) as u8,
            b2 == ((v >> 16) & 0xff) as u8,
            b3 == ((v >> 24) & 0xff) as u8,
    ;
}

} // verus!
