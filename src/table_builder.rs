//! Streams sorted entries into a complete table file.
use vstd::prelude::*;

use crate::block::BlockBuilder;
use crate::block_spec::{keys_increasing, last_key_or, KV};
use crate::blockhandle::{lemma_handle_roundtrip, parse_handle, BlockHandle};
use crate::cmp::{compare_bytes, lex_le, lex_lt, short_succ, shortest_sep, shortest_separator, short_successor};
use crate::error::{Result, Status, StatusCode};
use crate::filter::FilterPolicy;
use crate::filter_block::{concat, filter_block_bytes, filter_holds, final_filters, started, FilterBlockBuilder};
use crate::footer::{footer_bytes, parse_footer, Footer};
use crate::options::Options;
use crate::table_reader::{table_blocks, table_opens, filter_handle_ok, filters_cover, lemma_lookup_complete_filtered, table_filter, filter_from_meta, filter_meta_key, lemma_filter_from_meta_prefix, flatten, index_order, seek_lands, lemma_index_order_push, layout, lookup, no_zero_step, ordered_table, table_index, lemma_blocks_of, lemma_flatten_push, lemma_framed_block, lemma_layout_append, lemma_layout_push, lemma_stored_block_prefix, stored_block, table_contents};
use crate::types::{write_framed, TYPE_NONE};

verus! {

/// Builds a table: data blocks of entries in increasing key order, a filter
/// block, a metaindex block naming it, an index block with one separator
/// key per data block, and the footer.
pub struct TableBuilder {
    opt: Options,
    dst: Vec<u8>,
    num_entries: usize,
    last_key: Vec<u8>,
    data_block: BlockBuilder,
    index_block: BlockBuilder,
    filter_block: FilterBlockBuilder,
    added: Ghost<Seq<KV>>,
    first_key: Ghost<Seq<u8>>,
    blocks: Ghost<Seq<Seq<KV>>>,
    handles: Ghost<Seq<BlockHandle>>,
    budget_used: usize,
}

/// The file that `finish` returns holds the data blocks where its index
/// points, and its footer points to that index.
proof fn lemma_finish_contents(
    d0: Seq<u8>,
    d1: Seq<u8>,
    out: Seq<u8>,
    fb: Seq<u8>,
    ix: Seq<KV>,
    hs: Seq<BlockHandle>,
    bs: Seq<Seq<KV>>,
    footer: Footer,
)
    requires
        layout(ix, hs, bs, d0),
        d1.len() >= d0.len(),
        d1.take(d0.len() as int) == d0,
        stored_block(d1, footer.index) == Some(ix),
        footer.index.offset + footer.index.size + 5 <= d1.len(),
        fb == footer_bytes(footer),
        fb.len() == 48,
        out == d1 + fb,
    ensures
        table_contents(out) == Some(flatten(bs)),
        layout(ix, hs, bs, out),
        table_index(out) == ix,
        parse_footer(out.subrange(out.len() - 48, out.len() as int)) == Some(footer),
{
    let e1 = d1.skip(d0.len() as int);
    assert(d1 =~= d0 + e1);
    lemma_layout_append(ix, hs, bs, d0, e1);
    lemma_layout_append(ix, hs, bs, d1, fb);
    lemma_stored_block_prefix(d1, fb, footer.index);
    crate::footer::lemma_footer_roundtrip(footer);
    assert(out.subrange(out.len() - 48, out.len() as int) =~= fb);
    lemma_blocks_of(out, ix, hs, bs);
}

/// In a finished table every key is found by a lookup without filter, and
/// a seek for it lands on it.
proof fn lemma_finish_lookups(out: Seq<u8>, ix: Seq<KV>, hs: Seq<BlockHandle>, bs: Seq<Seq<KV>>)
    requires
        layout(ix, hs, bs, out),
        ordered_table(ix, bs),
        no_zero_step(flatten(bs)),
        table_index(out) == ix,
    ensures
        forall|p: int| 0 <= p < flatten(bs).len() ==>
            #[trigger] lookup(out, table_index(out), None, flatten(bs)[p].0) == Some(Some(flatten(bs)[p].1))
            && seek_lands(out, table_index(out), flatten(bs)[p].0, p),
{
    assert forall|p: int| 0 <= p < flatten(bs).len() implies
        #[trigger] lookup(out, table_index(out), None, flatten(bs)[p].0) == Some(Some(flatten(bs)[p].1))
        && seek_lands(out, table_index(out), flatten(bs)[p].0, p) by {
        crate::table_reader::lemma_lookup_complete(out, ix, hs, bs, p);
        crate::table_reader::lemma_seek_lands(out, ix, hs, bs, p);
    }
}

/// The filters generated so far cover the data blocks written so far, one
/// per 2 KiB of file; the keys of the block under construction and of
/// written blocks in the current range are pending.
pub open spec fn filter_inv(done: Seq<Seq<u8>>, pending: Seq<Seq<u8>>, hs: Seq<BlockHandle>, bs: Seq<Seq<KV>>, data: Seq<KV>, dst_len: nat) -> bool {
    &&& done.len() == dst_len / 2048
    &&& hs.len() == bs.len()
    &&& forall|i: int| 0 <= i < hs.len() ==> (#[trigger] hs[i]).offset <= dst_len
    &&& forall|i: int, j: int| 0 <= i < bs.len() && 0 <= j < bs[i].len() ==> filter_holds(done, pending, hs[i].offset, #[trigger] bs[i][j].0)
    &&& forall|j: int| 0 <= j < data.len() ==> pending.contains(#[trigger] data[j].0)
}

/// Writing the block under construction at `dst_len` and starting the next
/// one at `dst_len2` keeps the filters covering every written key.
proof fn lemma_filter_inv_flush(
    d: Seq<Seq<u8>>, p: Seq<Seq<u8>>, hs: Seq<BlockHandle>, bs: Seq<Seq<KV>>, data: Seq<KV>, dst_len: nat,
    policy: crate::filter::BloomPolicy, dst_len2: nat, d2: Seq<Seq<u8>>, p2: Seq<Seq<u8>>, hs2: Seq<BlockHandle>,
)
    requires
        filter_inv(d, p, hs, bs, data, dst_len),
        dst_len <= dst_len2,
        started(d, p, policy, dst_len2 / 2048, d2, p2),
        hs2.len() == hs.len() + 1,
        hs2.take(hs.len() as int) == hs,
        hs2.last().offset == dst_len,
    ensures
        filter_inv(d2, p2, hs2, bs.push(data), Seq::empty(), dst_len2),
{
    let bs2 = bs.push(data);
    assert(dst_len / 2048 <= dst_len2 / 2048) by (nonlinear_arith)
        requires
            dst_len <= dst_len2,
    ;
    assert forall|i: int| 0 <= i < hs2.len() implies (#[trigger] hs2[i]).offset <= dst_len2 by {
        if i < hs.len() {
            assert(hs2.take(hs.len() as int)[i] == hs2[i]);
        }
    }
    assert forall|i: int, j: int| 0 <= i < bs2.len() && 0 <= j < bs2[i].len() implies filter_holds(d2, p2, hs2[i].offset, #[trigger] bs2[i][j].0) by {
        if i < bs.len() {
            assert(hs2.take(hs.len() as int)[i] == hs2[i]);
            assert(bs2[i] == bs[i]);
            assert(filter_holds(d, p, hs[i].offset, bs[i][j].0));
            crate::filter_block::lemma_filter_holds_started(d, p, policy, dst_len2 / 2048, d2, p2, hs2[i].offset, bs2[i][j].0);
        } else {
            assert(bs2[i] == data);
            assert(p.contains(data[j].0));
            assert(filter_holds(d, p, hs2[i].offset, bs2[i][j].0));
            crate::filter_block::lemma_filter_holds_started(d, p, policy, dst_len2 / 2048, d2, p2, hs2[i].offset, bs2[i][j].0);
        }
    }
}

/// Adding a key to the block under construction and to the pending keys
/// keeps the filters covering every key.
proof fn lemma_filter_inv_add(d: Seq<Seq<u8>>, p: Seq<Seq<u8>>, hs: Seq<BlockHandle>, bs: Seq<Seq<KV>>, data: Seq<KV>, dst_len: nat, key: Seq<u8>, val: Seq<u8>)
    requires
        filter_inv(d, p, hs, bs, data, dst_len),
    ensures
        filter_inv(d, p.push(key), hs, bs, data.push((key, val)), dst_len),
{
    let p2 = p.push(key);
    assert forall|x: Seq<u8>| p.contains(x) implies p2.contains(x) by {
        let k = choose|k: int| 0 <= k < p.len() && p[k] == x;
        assert(p2[k] == x);
    }
    assert(p2[p.len() as int] == key);
    assert forall|i: int, j: int| 0 <= i < bs.len() && 0 <= j < bs[i].len() implies filter_holds(d, p2, hs[i].offset, #[trigger] bs[i][j].0) by {
        assert(filter_holds(d, p, hs[i].offset, bs[i][j].0));
    }
    let data2 = data.push((key, val));
    assert forall|j: int| 0 <= j < data2.len() implies p2.contains(#[trigger] data2[j].0) by {
        if j < data.len() {
            assert(data2[j] == data[j]);
            assert(p.contains(data[j].0));
        }
    }
}

/// The finished file opens: its metaindex, written into `dm`, survives the
/// index block and footer written after it.
proof fn lemma_finish_opens(dm: Seq<u8>, d1: Seq<u8>, out: Seq<u8>, fb: Seq<u8>, m: BlockHandle, footer: Footer)
    requires
        stored_block(dm, m) is Some,
        m.offset + m.size + 5 <= dm.len(),
        forall|i: int| 0 <= i < (stored_block(dm, m)->0).len() ==> #[trigger] filter_handle_ok(dm, (stored_block(dm, m)->0)[i].1),
        d1.len() >= dm.len(),
        d1.take(dm.len() as int) == dm,
        out == d1 + fb,
        footer.meta_index == m,
        parse_footer(out.subrange(out.len() - 48, out.len() as int)) == Some(footer),
        stored_block(out, footer.index) is Some,
        out.len() >= 48,
    ensures
        table_opens(out),
{
    let e1 = d1.skip(dm.len() as int);
    assert(d1 =~= dm + e1);
    lemma_stored_block_prefix(dm, e1, m);
    lemma_stored_block_prefix(d1, fb, m);
    let mb = stored_block(dm, m)->0;
    assert forall|i: int| 0 <= i < mb.len() implies #[trigger] filter_handle_ok(out, mb[i].1) by {
        assert(filter_handle_ok(dm, mb[i].1));
    }
}

/// Once finished, the filters cover every key of the written blocks.
proof fn lemma_cover_final(d: Seq<Seq<u8>>, p: Seq<Seq<u8>>, policy: crate::filter::BloomPolicy, hs: Seq<BlockHandle>, bs: Seq<Seq<KV>>, dst_len: nat)
    requires
        filter_inv(d, p, hs, bs, Seq::empty(), dst_len),
    ensures
        filters_cover(hs, bs, final_filters(d, p, policy)),
{
    let fs = final_filters(d, p, policy);
    assert forall|i: int, j: int| 0 <= i < bs.len() && 0 <= j < bs[i].len() && #[trigger] hs[i].offset / 2048 < fs.len() implies
        crate::filter::bloom_may_match(#[trigger] bs[i][j].0, fs[(hs[i].offset / 2048) as int]) by {
        assert(filter_holds(d, p, hs[i].offset, bs[i][j].0));
        let f = (hs[i].offset / 2048) as int;
        if f < d.len() {
            if p.len() > 0 {
                assert(fs[f] == d[f]);
            }
        } else {
            crate::filter_block::lemma_sub_filter_admits(policy, p, concat(d).len(), bs[i][j].0);
        }
    }
}

/// In a finished table every key is found by a lookup through its filter
/// block.
proof fn lemma_finish_filtered(out: Seq<u8>, ix: Seq<KV>, hs: Seq<BlockHandle>, bs: Seq<Seq<KV>>, fs: Seq<Seq<u8>>, policy: crate::filter::BloomPolicy)
    requires
        layout(ix, hs, bs, out),
        ordered_table(ix, bs),
        no_zero_step(flatten(bs)),
        filters_cover(hs, bs, fs),
        concat(fs).len() <= 0x7fff_ffff,
        table_index(out) == ix,
        table_filter(out, policy) == Some(filter_block_bytes(fs)),
    ensures
        forall|p: int| 0 <= p < flatten(bs).len() ==>
            #[trigger] lookup(out, table_index(out), table_filter(out, policy), flatten(bs)[p].0) == Some(Some(flatten(bs)[p].1)),
{
    assert forall|p: int| 0 <= p < flatten(bs).len() implies
        #[trigger] lookup(out, table_index(out), table_filter(out, policy), flatten(bs)[p].0) == Some(Some(flatten(bs)[p].1)) by {
        lemma_lookup_complete_filtered(out, ix, hs, bs, fs, p);
    }
}

/// The size budget of a table: the sizes of all keys and values, plus 64
/// bytes per entry, stay within 256 MiB. Within it every block and the
/// whole file fit the format's 32-bit sizes.
pub const TABLE_BUDGET: usize = 0x1000_0000;

/// Upper bound on the size of a block under construction.
pub const MAX_BLOCK_BYTES: usize = 0x7fff_0000;

impl TableBuilder {
    /// The filter policy this builder writes filters with.
    pub closed spec fn policy(&self) -> crate::filter::BloomPolicy {
        self.filter_block.policy()
    }

    /// The entries added so far.
    pub closed spec fn added_entries(&self) -> Seq<KV> {
        self.added@
    }

    /// The part of the table's size budget that the entries added so far
    /// take: the sizes of their keys and values, plus 64 bytes each.
    pub closed spec fn used(&self) -> nat {
        self.budget_used as nat
    }

    /// The separators in the index so far.
    pub closed spec fn separators(&self) -> Seq<Seq<u8>> {
        Seq::new(self.index_block.entries().len(), |i: int| self.index_block.entries()[i].0)
    }

    /// The data blocks written so far lie in `dst` where the index entries
    /// point, and hold `blocks`.
    pub closed spec fn layout_ok(&self) -> bool {
        layout(self.index_block.entries(), self.handles@, self.blocks@, self.dst@)
    }

    /// Keys increase, and the index keys order the written blocks; the last
    /// index key separates the last written block from the one under
    /// construction.
    pub closed spec fn order_ok(&self) -> bool {
        &&& keys_increasing(self.added@)
        &&& index_order(self.index_block.entries(), self.blocks@)
        &&& self.blocks@.len() > 0 && self.data_block.entries().len() > 0 ==>
            self.index_block.entries().last().0 == shortest_sep(self.blocks@.last().last().0, self.data_block.entries()[0].0)
    }

    /// The filters cover the keys written so far.
    pub closed spec fn filter_ok(&self) -> bool {
        filter_inv(self.filter_block.done(), self.filter_block.pending(), self.handles@, self.blocks@,
            self.data_block.entries(), self.dst@.len())
    }

    pub closed spec fn wf(&self) -> bool {
        &&& self.layout_ok()
        &&& self.order_ok()
        &&& self.filter_ok()
        &&& flatten(self.blocks@) + self.data_block.entries() == self.added@
        &&& self.data_block.wf()
        &&& self.index_block.wf()
        &&& self.filter_block.wf()
        &&& self.data_block.interval() == self.opt.block_restart_interval
        &&& self.index_block.interval() == 1
        &&& self.opt.block_restart_interval >= 1
        &&& self.num_entries == self.added@.len()
        &&& self.last_key@ == last_key_or(self.added@, Seq::empty())
        &&& self.index_block.entries().len() > 0 ==> self.data_block.entries().len() > 0
        &&& (self.num_entries > 0 <==> self.data_block.entries().len() > 0)
        &&& self.data_block.entries().len() > 0 ==> {
            &&& self.data_block.entries().last().0 == self.last_key@
            &&& self.data_block.entries()[0].0 == self.first_key@
            &&& lex_le(self.first_key@, self.last_key@)
        }
        &&& self.index_block.entries().len() > 0 ==> lex_le(self.index_block.entries().last().0, self.first_key@)
        &&& self.budget_used <= TABLE_BUDGET
        &&& self.data_block.size() <= 8 + self.budget_used
        &&& self.index_block.size() + self.last_key@.len() <= 8 + self.budget_used
        &&& self.dst@.len() + self.data_block.size() <= 2 * self.budget_used + 8
        &&& 64 * self.num_entries <= self.budget_used
        &&& self.filter_block.pending().len() <= self.num_entries
    }

    /// A builder that writes with the given options. The restart interval
    /// must be at least one.
    pub fn new(opt: Options) -> (r: TableBuilder)
        requires
            opt.block_restart_interval >= 1,
        ensures
            r.wf(),
            r.added_entries() == Seq::<KV>::empty(),
            r.used() == 0,
    {
        let interval = opt.block_restart_interval;
        let policy = opt.filter_policy;
        assert(flatten(Seq::<Seq<KV>>::empty()) + Seq::<KV>::empty() =~= Seq::<KV>::empty());
        TableBuilder {
            opt,
            dst: Vec::new(),
            num_entries: 0,
            last_key: Vec::new(),
            data_block: BlockBuilder::new(interval),
            index_block: BlockBuilder::new(1),
            filter_block: FilterBlockBuilder::new(policy),
            added: Ghost(Seq::empty()),
            first_key: Ghost(Seq::empty()),
            blocks: Ghost(Seq::empty()),
            handles: Ghost(Seq::empty()),
            budget_used: 0,
        }
    }

    /// A builder with the default options.
    pub fn new_defaults() -> (r: TableBuilder)
        ensures
            r.wf(),
            r.added_entries() == Seq::<KV>::empty(),
            r.used() == 0,
    {
        TableBuilder::new(Options::default())
    }

    /// The number of entries added so far.
    pub fn entries(&self) -> (r: usize)
        requires
            self.wf(),
        ensures
            r == self.added_entries().len(),
    {
        self.num_entries
    }

    /// The number of bytes written so far.
    pub closed spec fn written(&self) -> nat {
        self.dst@.len()
    }

    /// The size of the block under construction.
    pub closed spec fn pending_size(&self) -> nat {
        self.data_block.size()
    }

    /// The number of bytes written so far plus the size of the block under
    /// construction (saturated at `usize::MAX`).
    pub fn size_estimate(&self) -> (r: usize)
        requires
            self.wf(),
        ensures
            r == (if self.written() + self.pending_size() <= usize::MAX { self.written() + self.pending_size() } else { usize::MAX as nat }),
    {
        let d = self.data_block.size_estimate();
        if self.dst.len() > usize::MAX - d {
            usize::MAX
        } else {
            self.dst.len() + d
        }
    }

    /// Adds an entry. Fails with `InvalidArgument`, adding nothing, when `key`
    /// does not sort after the key added before, or when the entry would
    /// take the table past its size budget.
    pub fn add(&mut self, key: &[u8], val: &[u8]) -> (r: Result<()>)
        requires
            old(self).wf(),
        ensures
            final(self).wf(),
            r is Ok <==> (old(self).added_entries().len() == 0 || lex_lt(old(self).added_entries().last().0, key@))
                && old(self).used() + key@.len() + val@.len() + 64 <= TABLE_BUDGET,
            r is Ok ==> final(self).used() == old(self).used() + key@.len() + val@.len() + 64,
            r is Err ==> final(self).used() == old(self).used(),
            r is Ok ==> final(self).added_entries() == old(self).added_entries().push((key@, val@)),
            r is Err ==> final(self).added_entries() == old(self).added_entries() && r->Err_0.code == StatusCode::InvalidArgument,
    {
        if self.num_entries > 0 {
            let ord = compare_bytes(self.last_key.as_slice(), key);
            match ord {
                core::cmp::Ordering::Less => {},
                _ => {
                    return Err(Status::new(StatusCode::InvalidArgument, "keys must be added in increasing order"));
                },
            }
        }
        if key.len() > TABLE_BUDGET || val.len() > TABLE_BUDGET || key.len() + val.len() + 64 > TABLE_BUDGET - self.budget_used {
            return Err(Status::new(StatusCode::InvalidArgument, "table size budget exceeded"));
        }
        let flush = self.num_entries > 0 && self.data_block.size_estimate() >= self.opt.block_size;
        if flush {
            let sep = shortest_separator(self.last_key.as_slice(), key);
            proof {
                crate::cmp::lemma_sep_between(self.last_key@, key@);
            }
            let ghost pre = (self.filter_block.done(), self.filter_block.pending(), self.handles@, self.blocks@, self.data_block.entries(), self.dst@.len());
            self.write_data_block(sep.as_slice());
            proof {
                lemma_filter_inv_flush(pre.0, pre.1, pre.2, pre.3, pre.4, pre.5, self.filter_block.policy(), self.dst@.len(),
                    self.filter_block.done(), self.filter_block.pending(), self.handles@);
            }
        }
        proof {
            if self.data_block.entries().len() == 0 {
                self.first_key = Ghost(key@);
                crate::cmp::lemma_compare_refl(key@);
                if self.index_block.entries().len() > 0 {
                    assert(lex_le(self.index_block.entries().last().0, key@));
                }
            } else {
                crate::cmp::lemma_le_lt_trans(self.first_key@, self.last_key@, key@);
                assert(lex_le(self.first_key@, key@));
            }
        }
        let ghost pre_data = self.data_block.entries();
        proof {
            if flush {
                lemma_flatten_push(old(self).blocks@, old(self).data_block.entries());
            }
        }
        self.data_block.add(key, val);
        assert(flatten(self.blocks@) + self.data_block.entries() =~= (flatten(self.blocks@) + pre_data).push((key@, val@)));
        let ghost fpre = (self.filter_block.done(), self.filter_block.pending());
        self.filter_block.add_key(key);
        proof {
            lemma_filter_inv_add(fpre.0, fpre.1, self.handles@, self.blocks@, pre_data, self.dst@.len(), key@, val@);
        }
        self.num_entries = self.num_entries + 1;
        self.budget_used = self.budget_used + key.len() + val.len() + 64;
        self.last_key = crate::cmp::bytes_to_vec(key);
        self.added = Ghost(self.added@.push((key@, val@)));
        Ok(())
    }

    /// Writes the current data block and adds its index entry under `sep`,
    /// a key that sorts after the block's last key.
    #[verifier::rlimit(100)]
    fn write_data_block(&mut self, sep: &[u8])
        requires
            old(self).wf(),
            old(self).data_block.entries().len() > 0,
            lex_lt(old(self).last_key@, sep@),
            sep@.len() <= old(self).last_key@.len() + 1,
            old(self).index_block.size() + old(self).last_key@.len() + 61 <= MAX_BLOCK_BYTES,
        ensures
            final(self).data_block.wf(),
            final(self).index_block.wf(),
            final(self).filter_block.wf(),
            final(self).data_block.entries().len() == 0,
            final(self).data_block.size() == 8,
            final(self).data_block.interval() == old(self).data_block.interval(),
            final(self).index_block.interval() == 1,
            final(self).index_block.entries().len() > 0,
            final(self).index_block.size() <= old(self).index_block.size() + sep@.len() + 54,
            final(self).dst@.len() == old(self).dst@.len() + old(self).data_block.size() + 5,
            final(self).budget_used == old(self).budget_used,
            final(self).index_block.entries() == old(self).index_block.entries().push((sep@, final(self).index_block.entries().last().1)),
            final(self).opt == old(self).opt,
            final(self).added == old(self).added,
            final(self).num_entries == old(self).num_entries,
            final(self).last_key == old(self).last_key,
            final(self).first_key == old(self).first_key,
            final(self).filter_block.pending() == Seq::<Seq<u8>>::empty() || final(self).filter_block.pending() == old(self).filter_block.pending(),
            old(self).layout_ok() ==> final(self).layout_ok(),
            final(self).blocks@ == old(self).blocks@.push(old(self).data_block.entries()),
            index_order(final(self).index_block.entries(), final(self).blocks@),
            final(self).handles@.len() == old(self).handles@.len() + 1,
            final(self).handles@.take(old(self).handles@.len() as int) == old(self).handles@,
            final(self).handles@.last().offset == old(self).dst@.len(),
            final(self).dst@.len() >= old(self).dst@.len(),
            final(self).filter_block.policy() == old(self).filter_block.policy(),
            started(old(self).filter_block.done(), old(self).filter_block.pending(), old(self).filter_block.policy(),
                (final(self).dst@.len() / 2048) as nat, final(self).filter_block.done(), final(self).filter_block.pending()),
    {
        proof {
            if self.index_block.entries().len() > 0 {
                crate::cmp::lemma_le_trans(self.index_block.entries().last().0, self.first_key@, self.last_key@);
                crate::cmp::lemma_le_lt_trans(self.index_block.entries().last().0, self.last_key@, sep@);
            }
        }
        let mut block = BlockBuilder::new(self.opt.block_restart_interval);
        core::mem::swap(&mut self.data_block, &mut block);
        let ghost data_entries = block.entries();
        let contents = block.finish();
        let ghost old_dst = self.dst@;
        let handle = BlockHandle::new(self.dst.len(), contents.len());
        write_framed(&mut self.dst, contents.as_slice(), TYPE_NONE);
        let handle_enc = handle.encode();
        let ghost old_index = self.index_block.entries();
        self.index_block.add(sep, handle_enc.as_slice());
        self.filter_block.start_block(self.dst.len());
        proof {
            lemma_framed_block(old_dst, contents@);
            let extra = self.dst@.skip(old_dst.len() as int);
            assert(self.dst@ =~= old_dst + extra);
            if old(self).layout_ok() {
                lemma_layout_append(old_index, self.handles@, self.blocks@, old_dst, extra);
                lemma_layout_push(old_index, self.handles@, self.blocks@, self.dst@, sep@, handle, data_entries);
            }
        }
        proof {
            lemma_index_order_push(old_index, self.blocks@, data_entries, sep@, self.index_block.entries().last().1);
            assert(self.index_block.entries() =~= old_index.push((sep@, self.index_block.entries().last().1)));
        }
        self.blocks = Ghost(self.blocks@.push(data_entries));
        self.handles = Ghost(self.handles@.push(handle));
        assert(self.handles@.take(old(self).handles@.len() as int) =~= old(self).handles@);
    }

    /// Writes the block under construction, if it holds entries, with the
    /// successor of the last key as its index key.
    #[verifier::rlimit(100)]
    fn flush_last(&mut self)
        requires
            old(self).wf(),
        ensures
            final(self).dst@.len() <= 2 * old(self).used() + 13,
            final(self).index_block.size() <= old(self).used() + 63,
            final(self).filter_block.policy() == old(self).filter_block.policy(),
            old(self).added@.len() > 0 ==> final(self).index_block.entries().last().0 == short_succ(old(self).added@.last().0),
            old(self).added@.len() > 0 ==> final(self).index_block.entries().len() > 0,
            ({
                &&& final(self).layout_ok()
                &&& index_order(final(self).index_block.entries(), final(self).blocks@)
                &&& flatten(final(self).blocks@) == old(self).added@
                &&& keys_increasing(old(self).added@)
                &&& final(self).index_block.wf()
                &&& final(self).filter_block.wf()
                &&& filter_inv(final(self).filter_block.done(), final(self).filter_block.pending(), final(self).handles@,
                    final(self).blocks@, Seq::empty(), final(self).dst@.len())
            }),
    {
        if self.num_entries > 0 {
            let succ = short_successor(self.last_key.as_slice());
            proof {
                crate::cmp::lemma_short_succ_greater(self.last_key@);
            }
            let ghost pre = (self.filter_block.done(), self.filter_block.pending(), self.handles@, self.blocks@, self.data_block.entries(), self.dst@.len());
            self.write_data_block(succ.as_slice());
            proof {
                lemma_flatten_push(pre.3, pre.4);
                lemma_filter_inv_flush(pre.0, pre.1, pre.2, pre.3, pre.4, pre.5, self.filter_block.policy(), self.dst@.len(),
                    self.filter_block.done(), self.filter_block.pending(), self.handles@);
            }
        } else {
            proof {
                assert(self.blocks@.len() == 0);
                assert(self.data_block.entries().len() == 0);
                assert(flatten(self.blocks@) =~= Seq::<KV>::empty());
                assert(self.added@ =~= Seq::<KV>::empty());
                assert(self.data_block.entries() =~= Seq::<KV>::empty());
            }
        }
    }

    /// Writes the filter block and the metaindex block naming it; returns
    /// the handle of the metaindex block.
    #[verifier::rlimit(60)]
    fn write_filter_and_meta(&mut self) -> (m: BlockHandle)
        requires
            old(self).filter_block.wf(),
            old(self).dst@.len() <= 0x2000_0020,
            old(self).filter_block.done().len() == old(self).dst@.len() / 2048,
        ensures
            final(self).dst@.len() <= old(self).dst@.len() + 0x1020_0000,
            final(self).dst@.len() >= old(self).dst@.len(),
            final(self).dst@.take(old(self).dst@.len() as int) == old(self).dst@,
            final(self).blocks == old(self).blocks,
            final(self).handles == old(self).handles,
            final(self).index_block == old(self).index_block,
            stored_block(final(self).dst@, m) is Some,
            m.offset + m.size + 5 <= final(self).dst@.len(),
            filter_from_meta(final(self).dst@, stored_block(final(self).dst@, m)->0, filter_meta_key(old(self).filter_block.policy()))
                == Some(filter_block_bytes(final_filters(old(self).filter_block.done(), old(self).filter_block.pending(), old(self).filter_block.policy()))),
            forall|i: int| 0 <= i < (stored_block(final(self).dst@, m)->0).len() ==>
                #[trigger] filter_handle_ok(final(self).dst@, (stored_block(final(self).dst@, m)->0)[i].1),
            concat(final_filters(old(self).filter_block.done(), old(self).filter_block.pending(), old(self).filter_block.policy())).len() <= 0x7fff_ffff,
    {
        let ghost d0 = self.dst@;
        let ghost policy = self.filter_block.policy();
        let policy_name = self.filter_block.filter_name();
        let mut fb = FilterBlockBuilder::new(self.opt.filter_policy);
        core::mem::swap(&mut self.filter_block, &mut fb);
        let filter_contents = fb.finish();
        assert(d0.len() / 2048 <= 0x40000) by (nonlinear_arith)
            requires
                d0.len() <= 0x2000_0020,
        ;
        let filter_handle = BlockHandle::new(self.dst.len(), filter_contents.len());
        write_framed(&mut self.dst, filter_contents.as_slice(), TYPE_NONE);
        let ghost d1 = self.dst@;
        assert(d1.subrange(filter_handle.offset as int, filter_handle.offset + filter_handle.size) =~= filter_contents@);

        let mut meta_key: Vec<u8> = Vec::new();
        crate::block::extend_bytes(&mut meta_key, "filter.".as_bytes());
        crate::block::extend_bytes(&mut meta_key, policy_name.as_bytes());
        assert(meta_key@ == filter_meta_key(policy));
        proof {
            reveal_strlit("filter.");
            reveal_strlit("leveldb.BuiltinBloomFilter2");
            vstd::string::is_ascii_spec_bytes("filter.");
            vstd::string::is_ascii_spec_bytes("leveldb.BuiltinBloomFilter2");
        }
        assert(meta_key@.len() == 34);
        let fh = filter_handle.encode();
        let mut meta = BlockBuilder::new(1);
        meta.add(meta_key.as_slice(), fh.as_slice());
        let meta_contents = meta.finish();
        let meta_handle = BlockHandle::new(self.dst.len(), meta_contents.len());
        write_framed(&mut self.dst, meta_contents.as_slice(), TYPE_NONE);
        proof {
            lemma_framed_block(d1, meta_contents@);
            let entries = seq![(meta_key@, fh@)];
            assert(Seq::<KV>::empty().push((meta_key@, fh@)) =~= entries);
            let key = meta_key@;
            crate::cmp::lemma_compare_refl(key);
            assert(crate::block::seek_from(entries, key, 0) == Some(0nat));
            lemma_handle_roundtrip(filter_handle, Seq::empty());
            assert(fh@ + Seq::<u8>::empty() =~= fh@);
            let extra = self.dst@.skip(d1.len() as int);
            assert(self.dst@ =~= d1 + extra);
            assert(self.dst@.subrange(filter_handle.offset as int, filter_handle.offset + filter_handle.size) =~= filter_contents@);
            assert(self.dst@.take(d0.len() as int) =~= d0);
            let mb = stored_block(self.dst@, meta_handle)->0;
            assert(mb == entries);
            assert(filter_handle_ok(self.dst@, mb[0].1));
        }
        meta_handle
    }

    /// Writes the index block; returns its handle.
    fn write_index(&mut self) -> (ix: BlockHandle)
        requires
            old(self).index_block.wf(),
            old(self).dst@.len() <= 0x3030_0000,
            old(self).index_block.size() <= 0x1000_0100,
        ensures
            final(self).dst@.len() <= old(self).dst@.len() + 0x1000_0105,
            final(self).dst@.len() >= old(self).dst@.len(),
            final(self).dst@.take(old(self).dst@.len() as int) == old(self).dst@,
            final(self).blocks == old(self).blocks,
            final(self).handles == old(self).handles,
            stored_block(final(self).dst@, ix) == Some(old(self).index_block.entries()),
            ix.offset + ix.size + 5 <= final(self).dst@.len(),
    {
        let ghost d0 = self.dst@;
        let mut ib = BlockBuilder::new(1);
        core::mem::swap(&mut self.index_block, &mut ib);
        let index_contents = ib.finish();
        let index_handle = BlockHandle::new(self.dst.len(), index_contents.len());
        write_framed(&mut self.dst, index_contents.as_slice(), TYPE_NONE);
        proof {
            lemma_framed_block(d0, index_contents@);
            assert(self.dst@.take(d0.len() as int) =~= d0);
        }
        index_handle
    }

    /// Writes what remains and returns the table file: the last data block,
    /// whose index key is the successor of the last key, then the filter,
    /// metaindex and index blocks, then the footer.
    #[verifier::rlimit(60)]
    pub fn finish(self) -> (r: Result<Vec<u8>>)
        requires
            self.wf(),
        ensures
            r is Ok,
            r matches Ok(bytes) ==> table_contents(bytes@) == Some(self.added_entries()),
            r matches Ok(bytes) ==> table_opens(bytes@),
            r matches Ok(bytes) ==> index_order(table_index(bytes@), table_blocks(bytes@)),
            r is Ok && self.added_entries().len() > 0 ==>
                table_index((r->Ok_0)@).last().0 == short_succ(self.added_entries().last().0),
            r is Ok && no_zero_step(self.added_entries()) ==> forall|p: int| 0 <= p < self.added_entries().len() ==>
                #[trigger] lookup((r->Ok_0)@, table_index((r->Ok_0)@), None, self.added_entries()[p].0) == Some(Some(self.added_entries()[p].1))
                && seek_lands((r->Ok_0)@, table_index((r->Ok_0)@), self.added_entries()[p].0, p),
            r is Ok && no_zero_step(self.added_entries()) ==> forall|p: int| 0 <= p < self.added_entries().len() ==>
                #[trigger] lookup((r->Ok_0)@, table_index((r->Ok_0)@), table_filter((r->Ok_0)@, self.policy()), self.added_entries()[p].0)
                    == Some(Some(self.added_entries()[p].1)),
    {
        let mut me = self;
        me.flush_last();
        assert(flatten(me.blocks@) == self.added_entries());
        let ghost ix_entries = me.index_block.entries();
        let ghost policy = me.filter_block.policy();
        let ghost fs = final_filters(me.filter_block.done(), me.filter_block.pending(), policy);
        proof {
            lemma_cover_final(me.filter_block.done(), me.filter_block.pending(), policy, me.handles@, me.blocks@, me.dst@.len());
        }
        let ghost d0 = me.dst@;
        let meta_handle = me.write_filter_and_meta();
        let ghost dm = me.dst@;
        let index_handle = me.write_index();
        let footer = Footer::new(meta_handle, index_handle);
        let fb = footer.encode();
        let mut out = me.dst;
        let ghost d1 = out@;
        crate::block::extend_bytes(&mut out, fb.as_slice());
        proof {
            assert(d1.take(d0.len() as int) =~= d0) by {
                assert(d1.take(dm.len() as int) == dm);
                assert(dm.take(d0.len() as int) == d0);
            }
            lemma_finish_contents(d0, d1, out@, fb@, ix_entries, me.handles@, me.blocks@, footer);
            let e1 = d1.skip(dm.len() as int);
            assert(d1 =~= dm + e1);
            lemma_stored_block_prefix(dm, e1, meta_handle);
            lemma_filter_from_meta_prefix(dm, e1, stored_block(dm, meta_handle)->0, filter_meta_key(policy));
            assert(out@ =~= d1 + fb@);
            lemma_stored_block_prefix(d1, fb@, meta_handle);
            lemma_filter_from_meta_prefix(d1, fb@, stored_block(d1, meta_handle)->0, filter_meta_key(policy));
            assert(table_filter(out@, policy) == Some(filter_block_bytes(fs)));
            lemma_finish_opens(dm, d1, out@, fb@, meta_handle, footer);
            assert(table_blocks(out@) =~= me.blocks@) by {
                assert forall|i: int| 0 <= i < me.blocks@.len() implies table_blocks(out@)[i] == me.blocks@[i] by {
                    assert(parse_handle(ix_entries[i].1) is Some);
                    assert(stored_block(out@, me.handles@[i]) == Some(me.blocks@[i]));
                }
            }
            if no_zero_step(self.added_entries()) {
                assert(keys_increasing(flatten(me.blocks@)));
                assert(ordered_table(ix_entries, me.blocks@));
                lemma_finish_lookups(out@, ix_entries, me.handles@, me.blocks@);
                lemma_finish_filtered(out@, ix_entries, me.handles@, me.blocks@, fs, policy);
            }
        }
        Ok(out)
    }
}

} // verus!
