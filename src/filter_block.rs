//! Filter blocks: one filter per 2 KiB range of data-block offsets.
use vstd::prelude::*;

use crate::block::extend_bytes;
use crate::coding::{get_fixed32, le32, put_fixed32, u32_of_le};
use crate::filter::{offsets_ok, pieces, BloomPolicy, FilterPolicy};

verus! {

/// Each filter covers data blocks whose offsets share the bits above these.
pub const FILTER_BASE_LOG2: u32 = 11;

/// The concatenation of the filters in `fs`.
pub open spec fn concat(fs: Seq<Seq<u8>>) -> Seq<u8>
    decreases fs.len(),
{
    if fs.len() == 0 {
        Seq::empty()
    } else {
        concat(fs.drop_last()) + fs.last()
    }
}

/// The little-endian encodings of `offs`, one after the other.
pub open spec fn le32s(offs: Seq<u32>) -> Seq<u8>
    decreases offs.len(),
{
    if offs.len() == 0 {
        Seq::empty()
    } else {
        le32s(offs.drop_last()) + le32(offs.last())
    }
}

/// The start of each filter of `fs` within their concatenation.
pub open spec fn starts(fs: Seq<Seq<u8>>) -> Seq<u32> {
    Seq::new(fs.len(), |i: int| concat(fs.take(i)).len() as u32)
}

/// A filter block holding the filters `fs`: the filters, where each
/// starts, where that array starts, and the base logarithm.
pub open spec fn filter_block_bytes(fs: Seq<Seq<u8>>) -> Seq<u8> {
    concat(fs) + le32s(starts(fs)) + le32(concat(fs).len() as u32) + seq![FILTER_BASE_LOG2 as u8]
}

/// The filter that covers `keys`: none for no keys, the policy's filter
/// otherwise, or none again where that filter would not fit in 256 MiB
/// after `used` bytes of filters (a missing filter holds every key).
pub open spec fn sub_filter(policy: BloomPolicy, keys: Seq<Seq<u8>>, used: nat) -> Seq<u8> {
    if keys.len() == 0 || keys.len() > 0x1_0000_0000 || keys.len() * policy.bits() > 0xffff_0000 || policy.probes() > 30
        || used + policy.filter_of(keys).len() > 0x1000_0000 {
        Seq::empty()
    } else {
        policy.filter_of(keys)
    }
}

/// The filter for a batch of keys admits each of them.
pub proof fn lemma_sub_filter_admits(policy: BloomPolicy, keys: Seq<Seq<u8>>, used: nat, key: Seq<u8>)
    requires
        keys.contains(key),
    ensures
        crate::filter::bloom_may_match(key, sub_filter(policy, keys, used)),
{
    let f = sub_filter(policy, keys, used);
    if f.len() >= 2 {
        let i = choose|i: int| 0 <= i < keys.len() && keys[i] == key;
        crate::filter::lemma_bloom_no_false_negative(keys, policy.bits(), policy.probes(), i);
    }
}

/// The filters a filter builder holds once finished: those generated, and
/// one more for the pending keys if there are any.
pub open spec fn final_filters(done: Seq<Seq<u8>>, pending: Seq<Seq<u8>>, policy: BloomPolicy) -> Seq<Seq<u8>> {
    if pending.len() > 0 {
        done.push(sub_filter(policy, pending, concat(done).len()))
    } else {
        done
    }
}

/// A key of the data block at `offset` is admitted by the filter of its
/// range, or still waits among the pending keys where that filter is the
/// next one.
pub open spec fn filter_holds(done: Seq<Seq<u8>>, pending: Seq<Seq<u8>>, offset: usize, key: Seq<u8>) -> bool {
    &&& offset / 2048 <= done.len()
    &&& offset / 2048 < done.len() ==> crate::filter::bloom_may_match(key, done[(offset / 2048) as int])
    &&& offset / 2048 == done.len() ==> pending.contains(key)
}

/// What `start_block` does to the filters `d` and pending keys `p` when the
/// next block starts in range `n`.
pub open spec fn started(d: Seq<Seq<u8>>, p: Seq<Seq<u8>>, policy: BloomPolicy, n: nat, d2: Seq<Seq<u8>>, p2: Seq<Seq<u8>>) -> bool {
    &&& d.len() >= n ==> d2 == d && p2 == p
    &&& d.len() < n ==> {
        &&& d2.len() == n
        &&& d2.take(d.len() as int) == d
        &&& d2[d.len() as int] == sub_filter(policy, p, concat(d).len())
        &&& p2 == Seq::<Seq<u8>>::empty()
    }
}

/// Starting a block keeps every key admitted or pending.
pub proof fn lemma_filter_holds_started(d: Seq<Seq<u8>>, p: Seq<Seq<u8>>, policy: BloomPolicy, n: nat, d2: Seq<Seq<u8>>, p2: Seq<Seq<u8>>, offset: usize, key: Seq<u8>)
    requires
        filter_holds(d, p, offset, key),
        started(d, p, policy, n, d2, p2),
    ensures
        filter_holds(d2, p2, offset, key),
{
    if d.len() < n {
        let f = offset / 2048;
        if f < d.len() {
            assert(d2.take(d.len() as int)[f as int] == d2[f as int]);
        } else {
            lemma_sub_filter_admits(policy, p, concat(d).len(), key);
        }
    }
}

/// Collects the keys of a table and turns them into a filter block.
pub struct FilterBlockBuilder {
    policy: BloomPolicy,
    key_offsets: Vec<usize>,
    keys: Vec<u8>,
    filters: Vec<u8>,
    filter_offsets: Vec<u32>,
    done: Ghost<Seq<Seq<u8>>>,
}

impl FilterBlockBuilder {
    /// The filters generated so far.
    pub closed spec fn done(&self) -> Seq<Seq<u8>> {
        self.done@
    }

    /// The keys that the next filter will cover.
    pub closed spec fn pending(&self) -> Seq<Seq<u8>> {
        pieces(self.keys@, self.key_offsets@)
    }

    pub closed spec fn wf(&self) -> bool {
        &&& offsets_ok(self.keys@, self.key_offsets@)
        &&& self.filters@ == concat(self.done@)
        &&& self.filter_offsets@ == starts(self.done@)
        &&& self.filters@.len() <= 0x1000_0000
    }

    pub closed spec fn policy(&self) -> BloomPolicy {
        self.policy
    }

    pub fn new(policy: BloomPolicy) -> (r: FilterBlockBuilder)
        ensures
            r.wf(),
            r.done() == Seq::<Seq<u8>>::empty(),
            r.pending() == Seq::<Seq<u8>>::empty(),
            r.policy() == policy,
    {
        let r = FilterBlockBuilder {
            policy,
            key_offsets: Vec::new(),
            keys: Vec::new(),
            filters: Vec::new(),
            filter_offsets: Vec::new(),
            done: Ghost(Seq::empty()),
        };
        assert(r.filter_offsets@ =~= starts(Seq::empty()));
        assert(r.pending() =~= Seq::<Seq<u8>>::empty());
        r
    }

    /// The number of keys the next filter will cover.
    pub fn pending_count(&self) -> (r: usize)
        requires
            self.wf(),
        ensures
            r == self.pending().len(),
    {
        self.key_offsets.len()
    }

    /// The name under which the filter block is found in a table.
    pub fn filter_name(&self) -> (r: &'static str)
        ensures
            r == self.policy().name_spec(),
    {
        self.policy.name()
    }

    /// Adds a key to those that the next filter covers.
    pub fn add_key(&mut self, key: &[u8])
        requires
            old(self).wf(),
            old(self).pending().len() < usize::MAX,
        ensures
            final(self).wf(),
            final(self).done() == old(self).done(),
            final(self).pending() == old(self).pending().push(key@),
            final(self).policy() == old(self).policy(),
    {
        let ghost old_keys = self.keys@;
        let ghost old_offs = self.key_offsets@;
        self.key_offsets.push(self.keys.len());
        extend_bytes(&mut self.keys, key);
        assert(self.pending() =~= pieces(old_keys, old_offs).push(key@)) by {
            let n = old_offs.len();
            assert forall|i: int| 0 <= i < n as int implies #[trigger] self.pending()[i] == pieces(old_keys, old_offs)[i] by {
                let hi = if i + 1 < n { old_offs[i + 1] as int } else { old_keys.len() as int };
                assert(self.keys@.subrange(old_offs[i] as int, hi) =~= old_keys.subrange(old_offs[i] as int, hi));
            }
            assert(self.keys@.subrange(old_keys.len() as int, self.keys@.len() as int) =~= key@);
        }
    }

    /// Turns the pending keys into one more filter.
    fn generate_filter(&mut self)
        requires
            old(self).wf(),
        ensures
            final(self).wf(),
            final(self).done() == old(self).done().push(sub_filter(old(self).policy(), old(self).pending(), concat(old(self).done()).len())),
            final(self).pending() == Seq::<Seq<u8>>::empty(),
            final(self).policy() == old(self).policy(),
    {
        let ghost f = sub_filter(self.policy, self.pending(), concat(self.done@).len());
        let start = self.filters.len() as u32;
        self.filter_offsets.push(start);
        let n = self.key_offsets.len();
        let bpk = self.policy.bits_per_key();
        let mut accepted = false;
        if n > 0 && (n as u64) <= 0x1_0000_0000 && self.policy.k() <= 30 {
            assert((n as u64) * (bpk as u64) <= 0xffff_ffff_0000_0000u64) by (nonlinear_arith)
                requires
                    n <= 0x1_0000_0000u64,
                    bpk <= 0xffff_ffffu64,
            ;
            accepted = (n as u64) * (bpk as u64) <= 0xffff_0000;
        }
        assert(accepted == (n > 0 && n <= 0x1_0000_0000 && n * self.policy.bits() <= 0xffff_0000 && self.policy.probes() <= 30));
        if accepted {
            proof {
                let x = n as nat * bpk as nat;
                let bits = if x < 64 { 64 } else { x };
                assert(8 * ((bits + 7) / 8) <= bits + 7) by (nonlinear_arith);
                assert(self.policy.accepts(n as nat));
            }
            let filter = self.policy.create_filter(self.keys.as_slice(), self.key_offsets.as_slice());
            if filter.len() <= 0x1000_0000 - self.filters.len() {
                extend_bytes(&mut self.filters, filter.as_slice());
            }
        }
        assert(f.len() == 0 ==> self.filters@ == concat(self.done@));
        let ghost old_done = self.done@;
        self.done = Ghost(self.done@.push(f));
        proof {
            assert(self.done@.drop_last() =~= old_done);
            assert(self.filters@ =~= concat(self.done@));
            assert forall|i: int| 0 <= i < self.done@.len() implies #[trigger] starts(self.done@)[i] == self.filter_offsets@[i] by {
                if i < old_done.len() {
                    assert(self.done@.take(i) =~= old_done.take(i));
                } else {
                    assert(self.done@.take(i) =~= old_done);
                }
            }
            assert(self.filter_offsets@ =~= starts(self.done@));
        }
        self.keys = Vec::new();
        self.key_offsets = Vec::new();
        assert(self.pending() =~= Seq::<Seq<u8>>::empty());
    }

    /// Notes that the next data block starts at `offset`: generates filters
    /// until one exists for each 2 KiB range before that offset's.
    pub fn start_block(&mut self, offset: usize)
        requires
            old(self).wf(),
        ensures
            final(self).wf(),
            final(self).policy() == old(self).policy(),
            old(self).done().len() >= offset / 2048 ==> final(self).done() == old(self).done() && final(self).pending() == old(self).pending(),
            old(self).done().len() < offset / 2048 ==> {
                &&& final(self).done().len() == offset / 2048
                &&& final(self).done().take(old(self).done().len() as int) == old(self).done()
                &&& final(self).done()[old(self).done().len() as int] == sub_filter(old(self).policy(), old(self).pending(), concat(old(self).done()).len())
                &&& forall|i: int| old(self).done().len() < i < final(self).done().len() ==> #[trigger] final(self).done()[i] == Seq::<u8>::empty()
                &&& final(self).pending() == Seq::<Seq<u8>>::empty()
            },
            started(old(self).done(), old(self).pending(), old(self).policy(), (offset / 2048) as nat, final(self).done(), final(self).pending()),
    {
        let filter_index = offset / 2048;
        let ghost d0 = self.done@;
        let ghost f0 = sub_filter(self.policy, self.pending(), concat(self.done@).len());
        while self.filter_offsets.len() < filter_index
            invariant
                self.wf(),
                self.policy == old(self).policy,
                self.done@.len() >= d0.len(),
                d0 == old(self).done(),
                f0 == sub_filter(old(self).policy(), old(self).pending(), concat(d0).len()),
                self.done@.len() == d0.len() ==> self.pending() == old(self).pending(),
                self.done@.len() > d0.len() ==> self.pending() == Seq::<Seq<u8>>::empty(),
                self.done@.len() > d0.len() ==> self.done@.len() <= filter_index,
                self.done@.take(d0.len() as int) == d0,
                self.done@.len() > d0.len() ==> self.done@[d0.len() as int] == f0,
                forall|i: int| d0.len() < i < self.done@.len() ==> #[trigger] self.done@[i] == Seq::<u8>::empty(),
            decreases filter_index - self.filter_offsets@.len(),
        {
            let ghost before = self.done@;
            proof {
                if before.len() == d0.len() {
                    assert(before =~= before.take(d0.len() as int));
                }
            }
            self.generate_filter();
            proof {
                assert(self.done@.drop_last() == before);
                if before.len() > d0.len() {
                    assert(self.done@[d0.len() as int] == before[d0.len() as int]);
                }
                assert(self.done@.take(d0.len() as int) =~= before.take(d0.len() as int));
                if before.len() > d0.len() {
                    assert(sub_filter(self.policy, Seq::<Seq<u8>>::empty(), concat(before).len()) == Seq::<u8>::empty());
                }
            }
        }
        proof {
            if d0.len() >= filter_index {
                assert(self.done@.take(d0.len() as int) =~= self.done@);
            }
        }
    }

    /// The finished filter block. Pending keys get a filter of their own.
    pub fn finish(self) -> (r: Vec<u8>)
        requires
            self.wf(),
        ensures
            concat(if self.pending().len() > 0 {
                self.done().push(sub_filter(self.policy(), self.pending(), concat(self.done()).len()))
            } else {
                self.done()
            }).len() <= 0x1000_0000,
            r@.len() <= 0x1000_0000 + 4 * (self.done().len() + 1) + 5,
            r@ == filter_block_bytes(if self.pending().len() > 0 {
                self.done().push(sub_filter(self.policy(), self.pending(), concat(self.done()).len()))
            } else {
                self.done()
            }),
    {
        let mut me = self;
        if me.key_offsets.len() > 0 {
            me.generate_filter();
        }
        let ghost fs = me.done@;
        let mut out = me.filters;
        let array_offset = out.len() as u32;
        let mut i: usize = 0;
        while i < me.filter_offsets.len()
            invariant
                i <= me.filter_offsets@.len(),
                me.filter_offsets@ == starts(fs),
                array_offset == concat(fs).len(),
                out@ == concat(fs) + le32s(starts(fs).take(i as int)),
            decreases me.filter_offsets@.len() - i,
        {
            proof {
                assert(starts(fs).take(i + 1).drop_last() =~= starts(fs).take(i as int));
            }
            put_fixed32(&mut out, me.filter_offsets[i]);
            i = i + 1;
            assert(out@ =~= concat(fs) + le32s(starts(fs).take(i as int)));
        }
        assert(starts(fs).take(i as int) =~= starts(fs));
        proof {
            lemma_le32s_len(starts(fs));
        }
        put_fixed32(&mut out, array_offset);
        out.push(FILTER_BASE_LOG2 as u8);
        assert(out@ =~= filter_block_bytes(fs));
        out
    }
}

/// Where the offset array of the filter block `d` starts, if `d` is well
/// formed enough to say.
pub open spec fn fb_array_start(d: Seq<u8>) -> Option<nat> {
    if d.len() < 5 {
        None
    } else {
        let oo = u32_of_le(d.skip(d.len() - 5));
        if oo > d.len() - 5 { None } else { Some(oo as nat) }
    }
}

/// The number of filters in the filter block `d`.
pub open spec fn fb_num(d: Seq<u8>) -> nat {
    match fb_array_start(d) {
        Some(oo) => ((d.len() - 5 - oo) / 4) as nat,
        None => 0,
    }
}

/// Filter `i` of the filter block `d`; empty where its bounds are out of order.
pub open spec fn fb_filter(d: Seq<u8>, i: nat) -> Seq<u8> {
    let oo = fb_array_start(d)->0;
    let b = u32_of_le(d.skip((oo + 4 * i) as int));
    let e = if i + 1 < fb_num(d) { u32_of_le(d.skip((oo + 4 * (i + 1)) as int)) as nat } else { oo };
    if b <= e && e <= oo { d.subrange(b as int, e as int) } else { Seq::empty() }
}

/// Whether the filter block `d` may hold `key` in the data block at
/// `block_offset`: the filter for that offset's range decides; where there
/// is none, every key may be there.
pub open spec fn fb_may_match(d: Seq<u8>, block_offset: usize, key: Seq<u8>) -> bool {
    if fb_num(d) == 0 || d.last() >= 64 {
        true
    } else {
        let i = ((block_offset as u64) >> (d.last() as u64)) as nat;
        if i >= fb_num(d) { true } else { crate::filter::bloom_may_match(key, fb_filter(d, i)) }
    }
}

/// The filters of the first `i + 1` run on from those of the first `i`, and
/// those of the first `m` begin with them.
proof fn lemma_concat_take(fs: Seq<Seq<u8>>, i: int, m: int)
    requires
        0 <= i < m <= fs.len(),
    ensures
        concat(fs.take(i + 1)) == concat(fs.take(i)) + fs[i],
        concat(fs.take(m)).take(concat(fs.take(i + 1)).len() as int) == concat(fs.take(i + 1)),
        concat(fs.take(i + 1)).len() <= concat(fs.take(m)).len(),
    decreases m - i,
{
    assert(fs.take(i + 1).drop_last() =~= fs.take(i));
    if m > i + 1 {
        lemma_concat_take(fs, i, m - 1);
        assert(fs.take(m).drop_last() =~= fs.take(m - 1));
        let a = concat(fs.take(m - 1));
        assert(concat(fs.take(m)) == a + fs[m - 1]);
        assert((a + fs[m - 1]).take(concat(fs.take(i + 1)).len() as int) =~= a.take(concat(fs.take(i + 1)).len() as int));
    } else {
        assert(concat(fs.take(m)).take(concat(fs.take(m)).len() as int) =~= concat(fs.take(m)));
    }
}

/// The offset array holds each offset at four times its index.
proof fn lemma_le32s_at(xs: Seq<u32>, i: int, rest: Seq<u8>)
    requires
        0 <= i < xs.len(),
    ensures
        le32s(xs).len() == 4 * xs.len(),
        u32_of_le((le32s(xs) + rest).skip(4 * i)) == xs[i],
    decreases xs.len(),
{
    lemma_le32s_len(xs);
    let d = xs.drop_last();
    lemma_le32s_len(d);
    if i < xs.len() - 1 {
        lemma_le32s_at(d, i, le32(xs.last()) + rest);
        assert(le32s(xs) + rest =~= le32s(d) + (le32(xs.last()) + rest));
        assert(d[i] == xs[i]);
    } else {
        assert((le32s(xs) + rest).skip(4 * i) =~= le32(xs.last()) + rest);
        crate::coding::lemma_fixed32_roundtrip(xs.last(), rest);
    }
}

proof fn lemma_le32s_len(xs: Seq<u32>)
    ensures
        le32s(xs).len() == 4 * xs.len(),
    decreases xs.len(),
{
    if xs.len() > 0 {
        lemma_le32s_len(xs.drop_last());
    }
}

/// Filter block law: a filter block written for the filters `fs` reads back
/// as `fs`, each filter at its index.
pub proof fn lemma_filter_block_roundtrip(fs: Seq<Seq<u8>>)
    requires
        concat(fs).len() <= 0x7fff_ffff,
    ensures
        fb_num(filter_block_bytes(fs)) == fs.len(),
        filter_block_bytes(fs).last() == FILTER_BASE_LOG2 as u8,
        forall|i: int| 0 <= i < fs.len() ==> #[trigger] fb_filter(filter_block_bytes(fs), i as nat) == fs[i],
{
    let c = concat(fs);
    let st = starts(fs);
    let n = fs.len();
    let d = filter_block_bytes(fs);
    lemma_le32s_len(st);
    let tail = le32(c.len() as u32) + seq![FILTER_BASE_LOG2 as u8];
    assert(d =~= c + (le32s(st) + tail));
    assert(d.skip(d.len() - 5) =~= le32(c.len() as u32) + seq![FILTER_BASE_LOG2 as u8]);
    crate::coding::lemma_fixed32_roundtrip(c.len() as u32, seq![FILTER_BASE_LOG2 as u8]);
    assert(fs.take(n as int) =~= fs);
    assert forall|i: int| 0 <= i < fs.len() implies #[trigger] fb_filter(d, i as nat) == fs[i] by {
        lemma_concat_take(fs, i, n as int);
        lemma_le32s_at(st, i, tail);
        assert(d.skip(c.len() + 4 * i) =~= (le32s(st) + tail).skip(4 * i));
        let b = concat(fs.take(i)).len();
        let e = concat(fs.take(i + 1)).len();
        if i + 1 < n {
            lemma_le32s_at(st, i + 1, tail);
            assert(d.skip(c.len() + 4 * (i + 1)) =~= (le32s(st) + tail).skip(4 * (i + 1)));
        }
        assert(c.take(e as int) == concat(fs.take(i + 1)));
        assert(concat(fs.take(i + 1)) == concat(fs.take(i)) + fs[i]);
        assert(d.subrange(b as int, e as int) =~= c.take(e as int).subrange(b as int, e as int));
        assert((concat(fs.take(i)) + fs[i]).subrange(b as int, e as int) =~= fs[i]);
        assert(d.subrange(b as int, e as int) =~= fs[i]);
    }
}

/// Reading a filter block written for `fs`: the data block at `offset` is
/// checked against filter `offset / 2048`, and passes where there is none.
pub proof fn lemma_filter_block_match(fs: Seq<Seq<u8>>, offset: usize, key: Seq<u8>)
    requires
        concat(fs).len() <= 0x7fff_ffff,
    ensures
        fb_may_match(filter_block_bytes(fs), offset, key) == (offset / 2048 >= fs.len()
            || crate::filter::bloom_may_match(key, fs[(offset / 2048) as int])),
{
    lemma_filter_block_roundtrip(fs);
    let o = offset as u64;
    assert(o >> 11u64 == o / 2048) by (bit_vector);
    if fs.len() == 0 {
        assert(offset / 2048 >= fs.len());
    } else if offset / 2048 < fs.len() {
        let i: int = (offset / 2048) as int;
        assert(fb_filter(filter_block_bytes(fs), i as nat) == fs[i]);
    }
}

/// Answers, from a filter block, whether a data block may hold a key.
pub struct FilterBlockReader {
    policy: BloomPolicy,
    block: Vec<u8>,
}

impl FilterBlockReader {
    /// The bytes of the filter block.
    pub closed spec fn data(&self) -> Seq<u8> {
        self.block@
    }

    pub fn new(policy: BloomPolicy, data: Vec<u8>) -> (r: FilterBlockReader)
        ensures
            r.data() == data@,
    {
        FilterBlockReader { policy, block: data }
    }

    /// A copy of this reader.
    pub fn duplicate(&self) -> (r: FilterBlockReader)
        ensures
            r.data() == self.data(),
    {
        FilterBlockReader { policy: self.policy, block: crate::cmp::bytes_to_vec(self.block.as_slice()) }
    }

    /// The number of filters.
    pub fn num(&self) -> (r: usize)
        ensures
            r == fb_num(self.data()),
    {
        let n = self.block.len();
        if n < 5 {
            return 0;
        }
        let oo = get_fixed32(self.block.as_slice(), n - 5) as usize;
        if oo > n - 5 {
            return 0;
        }
        (n - 5 - oo) / 4
    }

    /// Whether the data block at `block_offset` may hold `key`.
    pub fn key_may_match(&self, block_offset: usize, key: &[u8]) -> (r: bool)
        ensures
            r == fb_may_match(self.data(), block_offset, key@),
    {
        let num = self.num();
        let n = self.block.len();
        if num == 0 || self.block[n - 1] >= 64 {
            return true;
        }
        let base = self.block[n - 1];
        let i = (block_offset as u64) >> (base as u64);
        if i >= num as u64 {
            return true;
        }
        let i = i as usize;
        let oo = get_fixed32(self.block.as_slice(), n - 5) as usize;
        let b = get_fixed32(self.block.as_slice(), oo + 4 * i) as usize;
        let e = if i + 1 < num {
            get_fixed32(self.block.as_slice(), oo + 4 * (i + 1)) as usize
        } else {
            oo
        };
        if b <= e && e <= oo {
            self.policy.key_may_match(key, &self.block.as_slice()[b..e])
        } else {
            self.policy.key_may_match(key, &[])
        }
    }
}

} // verus!
