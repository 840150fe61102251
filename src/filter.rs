//! Membership filters over batches of keys, and the Bloom filter policy.
use vstd::prelude::*;

use crate::coding::{get_fixed32, u32_of_le};

verus! {

/// Seed of the filter hash.
pub const BLOOM_SEED: u32 = 0xbc9f1d34;
/// Multiplier of the filter hash.
pub const BLOOM_M: u32 = 0xc6a4a793;

/// Mixes the four-byte words of `data` from `i` on into `h`.
pub open spec fn hash_words(data: Seq<u8>, i: nat, h: u32) -> u32
    decreases data.len() - i,
{
    if i + 4 <= data.len() {
        let h1 = h.wrapping_add(u32_of_le(data.skip(i as int))).wrapping_mul(BLOOM_M);
        hash_words(data, i + 4, h1 ^ (h1 >> 16u32))
    } else {
        h
    }
}

/// Adds the bytes of `data` from `i` on into `h`, byte `i` unshifted, each
/// following byte eight bits further left than the one before.
pub open spec fn hash_tail(data: Seq<u8>, start: nat, i: nat, h: u32) -> u32
    decreases data.len() - i,
{
    if i >= data.len() || i < start {
        h
    } else {
        hash_tail(data, start, i + 1, h.wrapping_add((data[i as int] as u32) << (8 * (i - start)) as u32))
    }
}

/// The 32-bit hash that places keys in a Bloom filter.
pub open spec fn bloom_hash(data: Seq<u8>) -> u32 {
    let h0 = BLOOM_SEED ^ (data.len() as u32).wrapping_mul(BLOOM_M);
    let ix = 4 * (data.len() / 4);
    let h = hash_words(data, 0, h0);
    if ix < data.len() {
        let t = hash_tail(data, ix, ix, h).wrapping_mul(BLOOM_M);
        t ^ (t >> 24u32)
    } else {
        h
    }
}

/// The step between the probes of a key with hash `h`: `h` rotated right by 17.
pub open spec fn delta_of(h: u32) -> u32 {
    (h >> 17u32) | (h << 15u32)
}

/// The `j`-th probe of a key with hash `h`.
pub open spec fn probe(h: u32, j: nat) -> u32
    decreases j,
{
    if j == 0 {
        h
    } else {
        probe(h, (j - 1) as nat).wrapping_add(delta_of(h))
    }
}

/// Whether bit `p` of the bit array `f` is set.
pub open spec fn bit_set(f: Seq<u8>, p: nat) -> bool {
    p / 8 < f.len() && f[(p / 8) as int] & (1u8 << (p % 8) as u8) != 0
}

/// `f` with bit `p` set.
pub open spec fn set_bit(f: Seq<u8>, p: nat) -> Seq<u8> {
    f.update((p / 8) as int, f[(p / 8) as int] | (1u8 << (p % 8) as u8))
}

/// `f` with the first `k` probes of hash `h` set, modulo `bits`.
pub open spec fn add_probes(f: Seq<u8>, h: u32, k: nat, bits: nat) -> Seq<u8>
    decreases k,
{
    if k == 0 {
        f
    } else {
        let f1 = add_probes(f, h, (k - 1) as nat, bits);
        set_bit(f1, probe(h, (k - 1) as nat) as nat % bits)
    }
}

/// `f` with the probes of every key of `keys` set.
pub open spec fn add_keys(f: Seq<u8>, keys: Seq<Seq<u8>>, k: nat, bits: nat) -> Seq<u8>
    decreases keys.len(),
{
    if keys.len() == 0 {
        f
    } else {
        add_probes(add_keys(f, keys.drop_last(), k, bits), bloom_hash(keys.last()), k, bits)
    }
}

/// The number of bytes in the bit array of a filter over `n` keys.
pub open spec fn filter_bytes(n: nat, bits_per_key: nat) -> nat {
    let bits = if n * bits_per_key < 64 { 64 } else { n * bits_per_key };
    ((bits + 7) / 8) as nat
}

/// The Bloom filter over `keys`: the bit array, then the probe count `k`.
pub open spec fn bloom_filter(keys: Seq<Seq<u8>>, bits_per_key: nat, k: nat) -> Seq<u8> {
    let nb = filter_bytes(keys.len(), bits_per_key);
    add_keys(Seq::new(nb, |i: int| 0u8), keys, k, nb * 8).push(k as u8)
}

/// Whether the filter `f` may hold `key`: every probe of `key` is set. A
/// filter of under two bytes, or whose probe count exceeds 30, holds
/// everything.
pub open spec fn bloom_may_match(key: Seq<u8>, f: Seq<u8>) -> bool {
    if f.len() < 2 || f.last() > 30 {
        true
    } else {
        let bits = ((f.len() - 1) * 8) as nat;
        let h = bloom_hash(key);
        forall|j: nat| j < f.last() ==> #[trigger] bit_set(f.drop_last(), probe(h, j) as nat % bits)
    }
}

/// The pieces of `data` that `offsets` mark: piece `i` runs from
/// `offsets[i]` to the next offset, the last one to the end of `data`.
pub open spec fn pieces(data: Seq<u8>, offsets: Seq<usize>) -> Seq<Seq<u8>> {
    Seq::new(offsets.len(), |i: int| data.subrange(offsets[i] as int, if i + 1 < offsets.len() { offsets[i + 1] as int } else { data.len() as int }))
}

/// Offsets that increase and stay within `data`.
pub open spec fn offsets_ok(data: Seq<u8>, offsets: Seq<usize>) -> bool {
    &&& forall|i: int| 0 <= i < offsets.len() ==> #[trigger] offsets[i] <= data.len()
    &&& forall|i: int| 0 < i < offsets.len() ==> offsets[i - 1] <= #[trigger] offsets[i]
}

/// The probe count for `bits_per_key`: `bits_per_key * ln 2`, rounded to the
/// nearest integer and kept between 1 and 30.
pub open spec fn probes_for(bits_per_key: nat) -> nat {
    let k = (bits_per_key * 693147 + 500000) / 1000000;
    if k < 1 { 1 } else if k > 30 { 30 } else { k }
}

proof fn lemma_set_bit_keeps(f: Seq<u8>, p: nat, q: nat)
    requires
        p / 8 < f.len(),
        bit_set(f, q),
    ensures
        bit_set(set_bit(f, p), q),
        set_bit(f, p).len() == f.len(),
{
    if p / 8 == q / 8 {
        let x = f[(p / 8) as int];
        let (a, b) = ((p % 8) as u8, (q % 8) as u8);
        assert((x | (1u8 << a)) & (1u8 << b) != 0) by (bit_vector)
            requires
                x & (1u8 << b) != 0,
        ;
    }
}

proof fn lemma_set_bit_sets(f: Seq<u8>, p: nat)
    requires
        p / 8 < f.len(),
    ensures
        bit_set(set_bit(f, p), p),
{
    let x = f[(p / 8) as int];
    let a = (p % 8) as u8;
    assert((x | (1u8 << a)) & (1u8 << a) != 0) by (bit_vector)
        requires
            a < 8,
    ;
}

proof fn lemma_add_probes(f: Seq<u8>, h: u32, k: nat, bits: nat)
    requires
        bits > 0,
        bits <= 8 * f.len(),
    ensures
        add_probes(f, h, k, bits).len() == f.len(),
        forall|q: nat| bit_set(f, q) ==> #[trigger] bit_set(add_probes(f, h, k, bits), q),
        forall|j: nat| j < k ==> #[trigger] bit_set(add_probes(f, h, k, bits), probe(h, j) as nat % bits),
    decreases k,
{
    if k > 0 {
        lemma_add_probes(f, h, (k - 1) as nat, bits);
        let f1 = add_probes(f, h, (k - 1) as nat, bits);
        let p = probe(h, (k - 1) as nat) as nat % bits;
        assert(p / 8 < f1.len()) by (nonlinear_arith)
            requires
                p < bits,
                bits <= 8 * f1.len(),
        ;
        lemma_set_bit_sets(f1, p);
        assert forall|q: nat| bit_set(f1, q) implies #[trigger] bit_set(set_bit(f1, p), q) by {
            lemma_set_bit_keeps(f1, p, q);
        }
        assert forall|j: nat| j < k implies #[trigger] bit_set(add_probes(f, h, k, bits), probe(h, j) as nat % bits) by {
            if j < k - 1 {
                assert(bit_set(f1, probe(h, j) as nat % bits));
            }
        }
    }
}

proof fn lemma_add_keys(f: Seq<u8>, keys: Seq<Seq<u8>>, k: nat, bits: nat)
    requires
        bits > 0,
        bits <= 8 * f.len(),
    ensures
        add_keys(f, keys, k, bits).len() == f.len(),
        forall|q: nat| bit_set(f, q) ==> #[trigger] bit_set(add_keys(f, keys, k, bits), q),
        forall|i: int, j: nat| 0 <= i < keys.len() && j < k ==> #[trigger] bit_set(add_keys(f, keys, k, bits), probe(bloom_hash(keys[i]), j) as nat % bits),
    decreases keys.len(),
{
    if keys.len() > 0 {
        let ks = keys.drop_last();
        lemma_add_keys(f, ks, k, bits);
        let f1 = add_keys(f, ks, k, bits);
        lemma_add_probes(f1, bloom_hash(keys.last()), k, bits);
        assert forall|i: int, j: nat| 0 <= i < keys.len() && j < k implies #[trigger] bit_set(add_keys(f, keys, k, bits), probe(bloom_hash(keys[i]), j) as nat % bits) by {
            if i < keys.len() - 1 {
                assert(keys[i] == ks[i]);
                assert(bit_set(f1, probe(bloom_hash(ks[i]), j) as nat % bits));
            }
        }
    }
}

/// Filter soundness: a Bloom filter over `keys` may hold each of them.
pub proof fn lemma_bloom_no_false_negative(keys: Seq<Seq<u8>>, bits_per_key: nat, k: nat, i: int)
    requires
        k <= 30,
        0 <= i < keys.len(),
    ensures
        bloom_may_match(keys[i], bloom_filter(keys, bits_per_key, k)),
{
    let nb = filter_bytes(keys.len(), bits_per_key);
    let zero = Seq::new(nb, |i: int| 0u8);
    assert(nb >= 8);
    lemma_add_keys(zero, keys, k, nb * 8);
    let f = bloom_filter(keys, bits_per_key, k);
    assert(f.drop_last() =~= add_keys(zero, keys, k, nb * 8));
    assert(f.last() == k as u8);
    assert(((f.len() - 1) * 8) as nat == nb * 8);
}

/// A filter algorithm: builds a compact summary of a batch of keys and
/// answers whether a key may be among them. It may answer yes for a key
/// that is not; it never answers no for one that is.
pub trait FilterPolicy {
    /// The filter this policy builds over `keys`.
    spec fn filter_of(&self, keys: Seq<Seq<u8>>) -> Seq<u8>;

    /// Whether this policy finds that `filter` may hold `key`.
    spec fn may_match(&self, key: Seq<u8>, filter: Seq<u8>) -> bool;

    /// Whether this policy can build a filter over `n` keys.
    spec fn accepts(&self, n: nat) -> bool;

    /// The name of this policy.
    spec fn name_spec(&self) -> &'static str;

    /// The name recorded in a table for filters of this policy.
    fn name(&self) -> (r: &'static str)
        ensures
            r == self.name_spec(),
    ;

    /// Builds a filter over the pieces of `keys` that `key_offsets` mark.
    fn create_filter(&self, keys: &[u8], key_offsets: &[usize]) -> (r: Vec<u8>)
        requires
            offsets_ok(keys@, key_offsets@),
            self.accepts(key_offsets@.len()),
        ensures
            r@ == self.filter_of(pieces(keys@, key_offsets@)),
    ;

    /// Whether `filter` may hold `key`.
    fn key_may_match(&self, key: &[u8], filter: &[u8]) -> (r: bool)
        ensures
            r == self.may_match(key@, filter@),
    ;
}

/// A policy whose filters are empty and hold every key.
#[derive(Clone, Copy, Debug)]
pub struct NoFilterPolicy;

impl NoFilterPolicy {
    pub fn new() -> NoFilterPolicy {
        NoFilterPolicy
    }
}

impl FilterPolicy for NoFilterPolicy {
    open spec fn filter_of(&self, keys: Seq<Seq<u8>>) -> Seq<u8> {
        Seq::empty()
    }

    open spec fn may_match(&self, key: Seq<u8>, filter: Seq<u8>) -> bool {
        true
    }

    open spec fn accepts(&self, n: nat) -> bool {
        true
    }

    open spec fn name_spec(&self) -> &'static str {
        "_"
    }

    fn name(&self) -> (r: &'static str) {
        "_"
    }

    fn create_filter(&self, keys: &[u8], key_offsets: &[usize]) -> (r: Vec<u8>) {
        Vec::new()
    }

    fn key_may_match(&self, key: &[u8], filter: &[u8]) -> (r: bool) {
        true
    }
}

/// The Bloom filter policy.
#[derive(Clone, Copy, Debug)]
pub struct BloomPolicy {
    bits_per_key: u32,
    k: u32,
}

/// The hash of a key, as a Bloom filter places it.
pub fn hash_key(data: &[u8]) -> (r: u32)
    ensures
        r == bloom_hash(data@),
{
    let limit = data.len();
    let mut h: u32 = BLOOM_SEED ^ (limit as u32).wrapping_mul(BLOOM_M);
    let mut ix: usize = 0;
    while limit - ix >= 4
        invariant
            limit == data@.len(),
            ix <= limit,
            ix % 4 == 0,
            hash_words(data@, ix as nat, h) == hash_words(data@, 0, BLOOM_SEED ^ (limit as u32).wrapping_mul(BLOOM_M)),
        decreases limit - ix,
    {
        let w = get_fixed32(data, ix);
        let h1 = h.wrapping_add(w).wrapping_mul(BLOOM_M);
        h = h1 ^ (h1 >> 16);
        ix = ix + 4;
    }
    assert(ix == 4 * (limit / 4));
    if ix < limit {
        let start = ix;
        let mut i: usize = ix;
        let mut t = h;
        while i < limit
            invariant
                start <= i <= limit,
                limit == data@.len(),
                limit - start < 4,
                hash_tail(data@, start as nat, i as nat, t) == hash_tail(data@, start as nat, start as nat, h),
            decreases limit - i,
        {
            t = t.wrapping_add((data[i] as u32) << (8 * (i - start)) as u32);
            i = i + 1;
        }
        let t1 = t.wrapping_mul(BLOOM_M);
        t1 ^ (t1 >> 24)
    } else {
        h
    }
}

impl BloomPolicy {
    pub closed spec fn bits(&self) -> nat {
        self.bits_per_key as nat
    }

    pub closed spec fn probes(&self) -> nat {
        self.k as nat
    }

    /// The number of bits per key.
    pub fn bits_per_key(&self) -> (r: u32)
        ensures
            r == self.bits(),
    {
        self.bits_per_key
    }

    /// The number of probes per key.
    pub fn k(&self) -> (r: u32)
        ensures
            r == self.probes(),
    {
        self.k
    }

    /// A policy that spends about `bits_per_key` bits per key.
    pub fn new(bits_per_key: u32) -> (r: BloomPolicy)
        ensures
            r.bits() == bits_per_key,
            r.probes() == probes_for(bits_per_key as nat),
    {
        let k64: u64 = (bits_per_key as u64 * 693147 + 500000) / 1000000;
        let k: u32 = if k64 < 1 {
            1
        } else if k64 > 30 {
            30
        } else {
            k64 as u32
        };
        BloomPolicy { bits_per_key, k }
    }
}

impl FilterPolicy for BloomPolicy {
    open spec fn filter_of(&self, keys: Seq<Seq<u8>>) -> Seq<u8> {
        bloom_filter(keys, self.bits(), self.probes())
    }

    open spec fn may_match(&self, key: Seq<u8>, filter: Seq<u8>) -> bool {
        bloom_may_match(key, filter)
    }

    open spec fn accepts(&self, n: nat) -> bool {
        8 * filter_bytes(n, self.bits()) <= u32::MAX && self.probes() <= 30
    }

    open spec fn name_spec(&self) -> &'static str {
        "leveldb.BuiltinBloomFilter2"
    }

    fn name(&self) -> (r: &'static str) {
        "leveldb.BuiltinBloomFilter2"
    }

    fn create_filter(&self, keys: &[u8], key_offsets: &[usize]) -> (r: Vec<u8>) {
        let n = key_offsets.len();
        assert(filter_bytes(n as nat, self.bits_per_key as nat) >= 8);
        let filter_bits: u64 = if (n as u64) * (self.bits_per_key as u64) < 64 {
            64
        } else {
            (n as u64) * (self.bits_per_key as u64)
        };
        let nbytes: usize = ((filter_bits + 7) / 8) as usize;
        let mut filter: Vec<u8> = Vec::with_capacity(nbytes + 1);
        let mut z: usize = 0;
        while z < nbytes
            invariant
                z <= nbytes,
                filter@ == Seq::new(z as nat, |i: int| 0u8),
            decreases nbytes - z,
        {
            filter.push(0);
            z = z + 1;
            assert(filter@ =~= Seq::new(z as nat, |i: int| 0u8));
        }
        let bits: u32 = (nbytes * 8) as u32;
        let ghost ks = pieces(keys@, key_offsets@);
        let mut i: usize = 0;
        while i < n
            invariant
                i <= n,
                n == key_offsets@.len(),
                offsets_ok(keys@, key_offsets@),
                ks == pieces(keys@, key_offsets@),
                nbytes == filter_bytes(n as nat, self.bits_per_key as nat),
                bits == nbytes * 8,
                nbytes >= 8,
                filter@ == add_keys(Seq::new(nbytes as nat, |i: int| 0u8), ks.take(i as int), self.k as nat, bits as nat),
            decreases n - i,
        {
            let upper = if i + 1 < n { key_offsets[i + 1] } else { keys.len() };
            let piece = &keys[key_offsets[i]..upper];
            assert(piece@ == ks[i as int]);
            let h = hash_key(piece);
            let delta = (h >> 17) | (h << 15);
            let mut g = h;
            let mut j: u32 = 0;
            let ghost base = filter@;
            proof {
                crate::filter::lemma_add_keys(Seq::new(nbytes as nat, |i: int| 0u8), ks.take(i as int), self.k as nat, bits as nat);
            }
            while j < self.k
                invariant
                    j <= self.k,
                    bits == nbytes * 8,
                    nbytes >= 8,
                    base.len() == nbytes,
                    g == probe(h, j as nat),
                    delta == delta_of(h),
                    filter@ == add_probes(base, h, j as nat, bits as nat),
                decreases self.k - j,
            {
                proof {
                    lemma_add_probes(base, h, j as nat, bits as nat);
                }
                let bitpos = (g % bits) as usize;
                assert(bitpos / 8 < filter@.len()) by (nonlinear_arith)
                    requires
                        bitpos < bits,
                        bits == nbytes * 8,
                        filter@.len() == nbytes,
                ;
                let byte = filter[bitpos / 8] | (1u8 << ((bitpos % 8) as u8));
                filter.set(bitpos / 8, byte);
                g = g.wrapping_add(delta);
                j = j + 1;
            }
            i = i + 1;
            assert(ks.take(i as int).drop_last() =~= ks.take(i - 1));
        }
        assert(ks.take(n as int) =~= ks);
        filter.push(self.k as u8);
        filter
    }

    fn key_may_match(&self, key: &[u8], filter: &[u8]) -> (r: bool) {
        let len = filter.len();
        if len < 2 {
            return true;
        }
        let k = filter[len - 1];
        if k > 30 {
            return true;
        }
        let bits: u128 = ((len - 1) as u128) * 8;
        let h = hash_key(key);
        let delta = (h >> 17) | (h << 15);
        let mut g = h;
        let mut j: u8 = 0;
        let ghost f = filter@.drop_last();
        while j < k
            invariant
                j <= k,
                k == filter@.last(),
                k <= 30,
                len == filter@.len(),
                len >= 2,
                bits == (len - 1) * 8,
                f == filter@.drop_last(),
                h == bloom_hash(key@),
                g == probe(h, j as nat),
                delta == delta_of(h),
                forall|i: nat| i < j ==> #[trigger] bit_set(f, probe(h, i) as nat % bits as nat),
            decreases k - j,
        {
            let g128 = g as u128;
            let bitpos128 = g128 % bits;
            assert(bitpos128 <= g128) by (nonlinear_arith)
                requires
                    bits > 0,
                    bitpos128 == g128 % bits,
            ;
            assert(bitpos128 < 0x1_0000_0000u128);
            assert(bitpos128 < bits);
            assert(bitpos128 / 8 < len - 1) by (nonlinear_arith)
                requires
                    bitpos128 < bits,
                    bits == (len - 1) * 8,
            ;
            let bitpos = bitpos128 as usize;
            assert(f[(bitpos / 8) as int] == filter@[(bitpos / 8) as int]);
            assert(bitpos == probe(h, j as nat) as nat % bits as nat);
            if filter[bitpos / 8] & (1u8 << ((bitpos % 8) as u8)) == 0 {
                assert(!bit_set(f, probe(h, j as nat) as nat % bits as nat));
                assert(bits as nat == ((filter@.len() - 1) * 8) as nat);
                assert((j as nat) < filter@.last());
                assert(!bit_set(filter@.drop_last(), probe(bloom_hash(key@), j as nat) as nat % (((filter@.len() - 1) * 8) as nat)));
                assert(!bloom_may_match(key@, filter@));
                return false;
            }
            g = g.wrapping_add(delta);
            j = j + 1;
        }
        true
    }
}

} // verus!
