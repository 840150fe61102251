//! Reading tables: opening a file, point lookups, and iteration.
use vstd::prelude::*;

use std::sync::Arc;
use vstd::string::StringSliceAdditionalSpecFns;

use crate::block::{next_pos, prev_pos, seek_from, Block, BlockIter};
use crate::block_spec::{parse_block, KV};
use crate::blockhandle::{parse_handle, BlockHandle};
use crate::cache::{first_key, holds_key, lacks_key, lemma_first_key_exists, Cache, CacheID};
use crate::cmp::compare_bytes;
use crate::coding::u32_of_le;
use crate::error::{Result, Status, StatusCode};
use crate::filter::{BloomPolicy, FilterPolicy};
use crate::filter_block::{fb_may_match, FilterBlockReader};
use crate::footer::{parse_footer, Footer, FULL_FOOTER_LENGTH};
use crate::options::Options;
use crate::types::{crc32c_of, masked, verify_trailer, TrailerCheck, TYPE_NONE, TYPE_SNAPPY};

verus! {

/// Whether the block that `h` points to lies within `file` with its trailer,
/// and its stored checksum matches its payload and type byte.
pub open spec fn frame_ok(file: Seq<u8>, h: BlockHandle) -> bool {
    h.offset + h.size + 5 <= file.len() && {
        let s = file.subrange(h.offset as int, h.offset + h.size + 5);
        u32_of_le(s.skip(h.size + 1)) == masked(crc32c_of(s.take(h.size + 1)))
    }
}

/// The entries of the block that `h` points to in `file`, when its frame is
/// sound, it is stored uncompressed, and it parses.
#[verifier::opaque]
pub open spec fn stored_block(file: Seq<u8>, h: BlockHandle) -> Option<Seq<KV>> {
    if frame_ok(file, h) && file[h.offset + h.size] == TYPE_NONE {
        parse_block(file.subrange(h.offset as int, h.offset + h.size))
    } else {
        None
    }
}

/// The entries of a sequence of blocks, one block after another.
pub open spec fn flatten(bs: Seq<Seq<KV>>) -> Seq<KV>
    decreases bs.len(),
{
    if bs.len() == 0 {
        Seq::empty()
    } else {
        flatten(bs.drop_last()) + bs.last()
    }
}

/// The entries of the data blocks that the index entries `ix` point to, in
/// index order; `None` if one of them cannot be read.
pub open spec fn blocks_of(file: Seq<u8>, ix: Seq<KV>) -> Option<Seq<KV>>
    decreases ix.len(),
{
    if ix.len() == 0 {
        Some(Seq::empty())
    } else {
        match (blocks_of(file, ix.drop_last()), parse_handle(ix.last().1)) {
            (Some(a), Some((h, _))) => match stored_block(file, h) {
                Some(b) => Some(a + b),
                None => None,
            },
            _ => None,
        }
    }
}

/// The entries a table file holds: the footer locates the index block,
/// whose entries locate the data blocks.
pub open spec fn table_contents(file: Seq<u8>) -> Option<Seq<KV>> {
    if file.len() < 48 {
        None
    } else {
        match parse_footer(file.subrange(file.len() - 48, file.len() as int)) {
            None => None,
            Some(f) => match stored_block(file, f.index) {
                None => None,
                Some(ix) => blocks_of(file, ix),
            },
        }
    }
}

/// Flattening one more block appends its entries.
pub proof fn lemma_flatten_push(bs: Seq<Seq<KV>>, b: Seq<KV>)
    ensures
        flatten(bs.push(b)) == flatten(bs) + b,
{
    assert(bs.push(b).drop_last() =~= bs);
}

/// Index entries `ix` point, through `hs`, to blocks in `file` that hold `bs`.
pub open spec fn layout(ix: Seq<KV>, hs: Seq<BlockHandle>, bs: Seq<Seq<KV>>, file: Seq<u8>) -> bool {
    &&& ix.len() == bs.len()
    &&& hs.len() == bs.len()
    &&& forall|i: int| 0 <= i < bs.len() ==> #[trigger] parse_handle(ix[i].1) is Some && (parse_handle(ix[i].1)->0).0 == hs[i]
    &&& forall|i: int| 0 <= i < bs.len() ==> #[trigger] stored_block(file, hs[i]) == Some(bs[i])
        && hs[i].offset + hs[i].size + 5 <= file.len()
}

/// A layout stays one when bytes are appended to the file.
pub proof fn lemma_layout_append(ix: Seq<KV>, hs: Seq<BlockHandle>, bs: Seq<Seq<KV>>, file: Seq<u8>, extra: Seq<u8>)
    requires
        layout(ix, hs, bs, file),
    ensures
        layout(ix, hs, bs, file + extra),
{
    assert forall|i: int| 0 <= i < bs.len() implies #[trigger] stored_block(file + extra, hs[i]) == Some(bs[i])
        && hs[i].offset + hs[i].size + 5 <= (file + extra).len() by {
        assert(stored_block(file, hs[i]) == Some(bs[i]));
        lemma_stored_block_prefix(file, extra, hs[i]);
    }
}

/// A layout extended by one more index entry, handle and block, where the
/// handle points to that block, is one.
pub proof fn lemma_layout_push(ix: Seq<KV>, hs: Seq<BlockHandle>, bs: Seq<Seq<KV>>, file: Seq<u8>, sep: Seq<u8>, h: BlockHandle, b: Seq<KV>)
    requires
        layout(ix, hs, bs, file),
        stored_block(file, h) == Some(b),
        h.offset + h.size + 5 <= file.len(),
    ensures
        layout(ix.push((sep, crate::blockhandle::handle_bytes(h))), hs.push(h), bs.push(b), file),
{
    crate::blockhandle::lemma_handle_roundtrip(h, Seq::empty());
    assert(crate::blockhandle::handle_bytes(h) + Seq::<u8>::empty() =~= crate::blockhandle::handle_bytes(h));
    let ix2 = ix.push((sep, crate::blockhandle::handle_bytes(h)));
    let hs2 = hs.push(h);
    let bs2 = bs.push(b);
    assert forall|i: int| 0 <= i < bs2.len() implies #[trigger] parse_handle(ix2[i].1) is Some && (parse_handle(ix2[i].1)->0).0 == hs2[i] by {
        if i < bs.len() {
            assert(ix2[i] == ix[i]);
            assert(parse_handle(ix[i].1) is Some);
        }
    }
    assert forall|i: int| 0 <= i < bs2.len() implies #[trigger] stored_block(file, hs2[i]) == Some(bs2[i])
        && hs2[i].offset + hs2[i].size + 5 <= file.len() by {
        if i < bs.len() {
            assert(stored_block(file, hs[i]) == Some(bs[i]));
        }
    }
}

/// Bytes appended after a block do not change what it reads as.
pub proof fn lemma_stored_block_prefix(a: Seq<u8>, b: Seq<u8>, h: BlockHandle)
    requires
        h.offset + h.size + 5 <= a.len(),
    ensures
        stored_block(a + b, h) == stored_block(a, h),
{
    reveal(stored_block);
    let e = h.offset + h.size + 5;
    assert((a + b).subrange(h.offset as int, e as int) =~= a.subrange(h.offset as int, e as int));
    assert((a + b).subrange(h.offset as int, h.offset + h.size) =~= a.subrange(h.offset as int, h.offset + h.size));
    assert((a + b)[h.offset + h.size] == a[h.offset + h.size]);
}

/// A block written by `write_framed` reads back as the entries its payload
/// parses to.
pub proof fn lemma_framed_block(prefix: Seq<u8>, payload: Seq<u8>)
    requires
        prefix.len() + payload.len() + 5 <= usize::MAX,
    ensures
        stored_block(
            prefix + crate::types::framed(payload, TYPE_NONE, crc32c_of(payload.push(TYPE_NONE))),
            BlockHandle { offset: prefix.len() as usize, size: payload.len() as usize },
        ) == parse_block(payload),
{
    reveal(stored_block);
    let c = crc32c_of(payload.push(TYPE_NONE));
    let f = prefix + crate::types::framed(payload, TYPE_NONE, c);
    let h = BlockHandle { offset: prefix.len() as usize, size: payload.len() as usize };
    let s = f.subrange(h.offset as int, h.offset + h.size + 5);
    assert(s =~= payload.push(TYPE_NONE) + crate::coding::le32(masked(c)));
    assert(s.take(h.size + 1) =~= payload.push(TYPE_NONE));
    assert(s.skip(h.size + 1) =~= crate::coding::le32(masked(c)) + Seq::<u8>::empty());
    crate::coding::lemma_fixed32_roundtrip(masked(c), Seq::empty());
    assert(f[h.offset + h.size] == TYPE_NONE);
    assert(f.subrange(h.offset as int, h.offset + h.size) =~= payload);
}

/// Index entries whose handles point to sound blocks read as those blocks,
/// one after another.
pub proof fn lemma_blocks_of(file: Seq<u8>, ix: Seq<KV>, hs: Seq<BlockHandle>, bs: Seq<Seq<KV>>)
    requires
        ix.len() == hs.len(),
        ix.len() == bs.len(),
        forall|i: int| 0 <= i < ix.len() ==> #[trigger] parse_handle(ix[i].1) is Some && (parse_handle(ix[i].1)->0).0 == hs[i],
        forall|i: int| 0 <= i < ix.len() ==> #[trigger] stored_block(file, hs[i]) == Some(bs[i]),
    ensures
        blocks_of(file, ix) == Some(flatten(bs)),
    decreases ix.len(),
{
    if ix.len() > 0 {
        let n = ix.len() - 1;
        assert forall|i: int| 0 <= i < n implies #[trigger] parse_handle(ix.drop_last()[i].1) is Some && (parse_handle(ix.drop_last()[i].1)->0).0 == hs.drop_last()[i] by {
            assert(ix.drop_last()[i] == ix[i]);
            assert(parse_handle(ix[i].1) is Some);
        }
        assert forall|i: int| 0 <= i < n implies #[trigger] stored_block(file, hs.drop_last()[i]) == Some(bs.drop_last()[i]) by {
            assert(stored_block(file, hs[i]) == Some(bs[i]));
        }
        lemma_blocks_of(file, ix.drop_last(), hs.drop_last(), bs.drop_last());
        assert(parse_handle(ix[n].1) is Some);
        assert(stored_block(file, hs[n]) == Some(bs[n]));
    }
}

/// Loads the block that `h` points to: fails with `Corruption` where the
/// block lies outside the file, its checksum does not match, its type byte
/// is unknown or it does not parse, and with `NotSupported` where it is
/// compressed.
pub fn read_table_block(file: &[u8], h: &BlockHandle) -> (r: Result<Block>)
    ensures
        match r {
            Ok(b) => stored_block(file@, *h) == Some(b.view()),
            Err(e) => stored_block(file@, *h) is None,
        },
        !frame_ok(file@, *h) ==> (r matches Err(e) && e.code == StatusCode::Corruption),
        r matches Err(e) ==> (e.code == StatusCode::Corruption || e.code == StatusCode::NotSupported),
        r matches Err(e) ==> (e.code == StatusCode::NotSupported <==> frame_ok(file@, *h) && file@[h.offset + h.size] == TYPE_SNAPPY),
{
    reveal(stored_block);
    let n = file.len();
    if h.offset > n || h.size > n - h.offset || n - h.offset - h.size < 5 {
        return Err(Status::new(StatusCode::Corruption, "block lies outside the file"));
    }
    let end = h.offset + h.size + 5;
    let stored = &file[h.offset..end];
    proof {
        let s = file@.subrange(h.offset as int, end as int);
        assert(stored@ == s);
        assert(s.take(h.size + 1) =~= stored@.take(stored@.len() - 4));
        assert(s.skip(h.size + 1) =~= stored@.skip(stored@.len() - 4));
        assert(stored@[stored@.len() - 5] == file@[h.offset + h.size]);
    }
    match verify_trailer(stored) {
        TrailerCheck::BadChecksum => Err(Status::new(StatusCode::Corruption, "block checksum mismatch")),
        TrailerCheck::Unsupported => Err(Status::new(StatusCode::NotSupported, "compressed block")),
        TrailerCheck::BadType => Err(Status::new(StatusCode::Corruption, "unknown block type")),
        TrailerCheck::Plain => {
            let payload = &stored[0..h.size];
            assert(payload@ =~= file@.subrange(h.offset as int, h.offset + h.size));
            Block::new(payload)
        },
    }
}

/// Relies on `Arc::clone`: a new handle to the same allocation, which holds
/// the same bytes.
#[verifier::external_body]
fn share_file(f: &Arc<Vec<u8>>) -> (r: Arc<Vec<u8>>)
    ensures
        r@ == f@,
{
    Arc::clone(f)
}

/// What looking up `key` in a table gives: `None` for a failure, else the
/// value found, if any. The index entry at or after `key` names the only
/// block that can hold it; the filter for that block may rule the key out.
pub open spec fn lookup(file: Seq<u8>, index: Seq<KV>, filter: Option<Seq<u8>>, key: Seq<u8>) -> Option<Option<Seq<u8>>> {
    match seek_from(index, key, 0) {
        None => Some(None),
        Some(i) => match parse_handle(index[i as int].1) {
            None => None,
            Some((h, _)) => if filter matches Some(d) && !fb_may_match(d, h.offset, key) {
                Some(None)
            } else {
                match stored_block(file, h) {
                    None => None,
                    Some(es) => match seek_from(es, key, 0) {
                        Some(j) => if es[j as int].0 == key { Some(Some(es[j as int].1)) } else { Some(None) },
                        None => Some(None),
                    },
                }
            },
        },
    }
}

/// Every block cached for table `id` is the block stored in `file` at its
/// offset and size.
pub open spec fn cache_consistent(items: Seq<(CacheID, u64, u64, Seq<KV>)>, id: CacheID, file: Seq<u8>) -> bool {
    forall|i: int| 0 <= i < items.len() && (#[trigger] items[i]).0 == id ==> {
        &&& items[i].1 <= usize::MAX
        &&& items[i].2 <= usize::MAX
        &&& stored_block(file, BlockHandle { offset: items[i].1 as usize, size: items[i].2 as usize }) == Some(items[i].3)
    }
}

/// Entries drawn from a consistent cache, plus possibly one more that is
/// itself consistent, make a consistent cache.
proof fn lemma_cache_consistent_subset(
    old_items: Seq<(CacheID, u64, u64, Seq<KV>)>,
    new_items: Seq<(CacheID, u64, u64, Seq<KV>)>,
    extra: int,
    id: CacheID,
    file: Seq<u8>,
)
    requires
        cache_consistent(old_items, id, file),
        forall|i: int| 0 <= i < new_items.len() && i != extra ==> old_items.contains(#[trigger] new_items[i]),
        0 <= extra < new_items.len() ==> cache_consistent(seq![new_items[extra]], id, file),
    ensures
        cache_consistent(new_items, id, file),
{
    assert forall|i: int| 0 <= i < new_items.len() && (#[trigger] new_items[i]).0 == id implies {
        &&& new_items[i].1 <= usize::MAX
        &&& new_items[i].2 <= usize::MAX
        &&& stored_block(file, BlockHandle { offset: new_items[i].1 as usize, size: new_items[i].2 as usize }) == Some(new_items[i].3)
    } by {
        if i == extra {
            assert(seq![new_items[extra]][0] == new_items[i]);
        } else {
            let j = choose|j: int| 0 <= j < old_items.len() && old_items[j] == new_items[i];
            assert(old_items[j].0 == id);
        }
    }
}

/// Lookup soundness: where every data block can be read, a lookup never
/// fails, and a value it finds is stored under that key in the table.
pub proof fn lemma_lookup_sound(file: Seq<u8>, ix: Seq<KV>, filter: Option<Seq<u8>>, key: Seq<u8>)
    requires
        blocks_of(file, ix) is Some,
    ensures
        lookup(file, ix, filter, key) is Some,
        lookup(file, ix, filter, key) matches Some(Some(v)) ==> (blocks_of(file, ix)->0).contains((key, v)),
{
    lemma_blocks_of_take(file, ix);
    match seek_from(ix, key, 0) {
        None => {},
        Some(i) => {
            crate::block::lemma_seek_in_range(ix, key);
            assert(indexed_block(file, ix, i) is Some);
            let es = indexed_block(file, ix, i)->0;
            match seek_from(es, key, 0) {
                Some(j) => {
                    crate::block::lemma_seek_in_range(es, key);
                    if es[j as int].0 == key {
                        lemma_contents_at(file, ix, i, j);
                        let c = blocks_of(file, ix)->0;
                        assert(c[(entries_before(file, ix, i) + j) as int] == (key, es[j as int].1));
                    }
                },
                None => {},
            }
        },
    }
}

/// The metaindex key under which the filter block of `policy` is recorded.
pub open spec fn filter_meta_key(policy: BloomPolicy) -> Seq<u8> {
    "filter.".spec_bytes() + policy.name_spec().spec_bytes()
}

/// The filter block that the metaindex entries `meta` record under `key`:
/// the bytes its handle points to, if it is not empty and lies in `file`.
pub open spec fn filter_from_meta(file: Seq<u8>, meta: Seq<KV>, key: Seq<u8>) -> Option<Seq<u8>> {
    match seek_from(meta, key, 0) {
        Some(j) => if j < meta.len() && meta[j as int].0 == key {
            match parse_handle(meta[j as int].1) {
                Some((h, _)) => if h.size > 0 && h.offset + h.size <= file.len() {
                    Some(file.subrange(h.offset as int, h.offset + h.size))
                } else {
                    None
                },
                None => None,
            }
        } else {
            None
        },
        None => None,
    }
}

/// The filter block a table file records for `policy` in its metaindex.
pub open spec fn table_filter(file: Seq<u8>, policy: BloomPolicy) -> Option<Seq<u8>> {
    filter_from_meta(
        file,
        stored_block(file, (parse_footer(file.subrange(file.len() - 48, file.len() as int))->0).meta_index)->0,
        filter_meta_key(policy),
    )
}

/// Bytes appended to a file do not change the filter block it records.
pub proof fn lemma_filter_from_meta_prefix(file: Seq<u8>, extra: Seq<u8>, meta: Seq<KV>, key: Seq<u8>)
    requires
        filter_from_meta(file, meta, key) is Some,
    ensures
        filter_from_meta(file + extra, meta, key) == filter_from_meta(file, meta, key),
{
    let j = seek_from(meta, key, 0)->0;
    let h = (parse_handle(meta[j as int].1)->0).0;
    assert((file + extra).subrange(h.offset as int, h.offset + h.size) =~= file.subrange(h.offset as int, h.offset + h.size));
}

/// The data blocks that the index of a table file points to.
pub open spec fn table_blocks(file: Seq<u8>) -> Seq<Seq<KV>> {
    Seq::new(table_index(file).len(), |i: int| indexed_block(file, table_index(file), i as nat)->0)
}

/// Whether `Table::new` can open `file`: it has a footer, its index and
/// metaindex blocks are sound, and every handle in the metaindex is empty
/// or lies within the file.
pub open spec fn table_opens(file: Seq<u8>) -> bool {
    file.len() >= 48 && {
        let f = parse_footer(file.subrange(file.len() - 48, file.len() as int));
        &&& f is Some
        &&& stored_block(file, f->0.index) is Some
        &&& stored_block(file, f->0.meta_index) is Some
        &&& forall|i: int| 0 <= i < (stored_block(file, f->0.meta_index)->0).len() ==>
            #[trigger] filter_handle_ok(file, (stored_block(file, f->0.meta_index)->0)[i].1)
    }
}

/// Whether the metaindex value `v` is a handle that is empty or lies
/// within `file`.
pub open spec fn filter_handle_ok(file: Seq<u8>, v: Seq<u8>) -> bool {
    parse_handle(v) matches Some((h, _)) && (h.size == 0 || h.offset + h.size <= file.len())
}

/// The number of entries in the first `i` blocks of `bs`.
pub open spec fn flat_before(bs: Seq<Seq<KV>>, i: int) -> nat {
    flatten(bs.take(i)).len()
}

/// Entry `j` of block `i` stands at `flat_before(i) + j` in the flattening.
pub proof fn lemma_flatten_at(bs: Seq<Seq<KV>>, i: int, j: int)
    requires
        0 <= i < bs.len(),
        0 <= j < bs[i].len(),
    ensures
        flat_before(bs, i) + j < flatten(bs).len(),
        flatten(bs)[flat_before(bs, i) + j] == bs[i][j],
        flat_before(bs, i + 1) == flat_before(bs, i) + bs[i].len(),
    decreases bs.len(),
{
    assert(bs.take(i + 1).drop_last() =~= bs.take(i));
    if i + 1 < bs.len() {
        lemma_flatten_at(bs.drop_last(), i, j);
        assert(bs.drop_last().take(i) =~= bs.take(i));
        assert(bs.drop_last().take(i + 1) =~= bs.take(i + 1));
        assert(flatten(bs) == flatten(bs.drop_last()) + bs.last());
    } else {
        assert(bs.take(i + 1) =~= bs);
        assert(bs.drop_last() =~= bs.take(i));
    }
}

/// Every position of the flattening falls in some block.
pub proof fn lemma_flatten_split(bs: Seq<Seq<KV>>, p: int) -> (r: (int, int))
    requires
        0 <= p < flatten(bs).len(),
    ensures
        0 <= r.0 < bs.len(),
        0 <= r.1 < bs[r.0].len(),
        p == flat_before(bs, r.0) + r.1,
    decreases bs.len(),
{
    let d = bs.drop_last();
    assert(bs.len() > 0);
    assert(flatten(bs) == flatten(d) + bs.last());
    assert(bs.take(bs.len() - 1) =~= d);
    if p < flatten(d).len() {
        let (i, j) = lemma_flatten_split(d, p);
        assert(d.take(i) =~= bs.take(i));
        assert(d[i] == bs[i]);
        (i, j)
    } else {
        (bs.len() - 1, p - flatten(d).len())
    }
}

/// Index keys and blocks in order: keys increase across the blocks, no
/// block is empty, each index key sorts after its block's last key, and
/// each index key but the last is the separator between its block's last
/// key and the next block's first.
pub open spec fn ordered_table(ix: Seq<KV>, bs: Seq<Seq<KV>>) -> bool {
    &&& crate::block_spec::keys_increasing(flatten(bs))
    &&& index_order(ix, bs)
}

/// No key is the key before it followed by a single zero byte.
pub open spec fn no_zero_step(es: Seq<KV>) -> bool {
    forall|p: int| 0 < p < es.len() ==> #[trigger] es[p].0 != es[p - 1].0.push(0)
}

/// In an ordered table, the key at position `p` (entry `j` of block `i`)
/// sorts before the index key of its block.
#[verifier::rlimit(80)]
proof fn lemma_key_below_index(ix: Seq<KV>, bs: Seq<Seq<KV>>, p: int, i: int, j: int)
    requires
        crate::block_spec::keys_increasing(flatten(bs)),
        ix.len() == bs.len(),
        bs[i].len() > 0 && crate::cmp::lex_lt(bs[i].last().0, ix[i].0),
        0 <= i < bs.len(),
        0 <= j < bs[i].len(),
        p == flat_before(bs, i) + j,
    ensures
        crate::cmp::lex_lt(flatten(bs)[p].0, ix[i].0),
{
    let c = flatten(bs);
    lemma_flatten_at(bs, i, j);
    let last_pos_i = flat_before(bs, i) + bs[i].len() - 1;
    lemma_flatten_at(bs, i, bs[i].len() - 1);
    if p < last_pos_i {
        crate::block::lemma_increasing_lt(c, p as nat, last_pos_i as nat);
        crate::cmp::lemma_lt_trans(c[p].0, bs[i].last().0, ix[i].0);
    }
}

/// In an ordered table without zero steps, the index key of every block
/// before block `i` sorts before the key at position `p` of block `i`.
#[verifier::rlimit(80)]
proof fn lemma_index_below_key(ix: Seq<KV>, bs: Seq<Seq<KV>>, p: int, i: int, q: int)
    requires
        ordered_table(ix, bs),
        no_zero_step(flatten(bs)),
        0 <= q < i < bs.len(),
        flat_before(bs, i) <= p < flatten(bs).len(),
    ensures
        crate::cmp::lex_lt(ix[q].0, flatten(bs)[p].0),
{
    let c = flatten(bs);
    assert(bs[q].len() > 0 && crate::cmp::lex_lt(bs[q].last().0, ix[q].0));
    assert(bs[q + 1].len() > 0 && crate::cmp::lex_lt(bs[q + 1].last().0, ix[q + 1].0));
    assert(ix[q].0 == crate::cmp::shortest_sep(bs[q].last().0, bs[q + 1][0].0));
    lemma_flatten_at(bs, q, bs[q].len() - 1);
    lemma_flatten_at(bs, q + 1, 0);
    let a: int = flat_before(bs, q) + bs[q].len() - 1;
    let b: int = flat_before(bs, q + 1) as int;
    assert(c[b].0 != c[b - 1].0.push(0));
    assert(crate::cmp::lex_lt(c[a].0, c[b].0));
    crate::cmp::lemma_shortest_sep_bounds(bs[q].last().0, bs[q + 1][0].0);
    if b < p {
        lemma_flat_before_mono(bs, q + 1, i);
        crate::block::lemma_increasing_lt(c, b as nat, p as nat);
        crate::cmp::lemma_lt_trans(ix[q].0, c[b].0, c[p].0);
    } else {
        lemma_flat_before_mono(bs, q + 1, i);
    }
}

/// Counts of entries grow with the number of blocks.
proof fn lemma_flat_before_mono(bs: Seq<Seq<KV>>, a: int, b: int)
    requires
        0 <= a <= b <= bs.len(),
    ensures
        flat_before(bs, a) <= flat_before(bs, b),
    decreases b - a,
{
    if a < b {
        lemma_flat_before_mono(bs, a, b - 1);
        assert(bs.take(b).drop_last() =~= bs.take(b - 1));
    }
}

/// The index entries of a table file, as its footer locates them.
pub open spec fn table_index(file: Seq<u8>) -> Seq<KV> {
    stored_block(file, (parse_footer(file.subrange(file.len() - 48, file.len() as int))->0).index)->0
}

/// The index keys and blocks keep the order of `ordered_table`, the keys
/// themselves aside.
pub open spec fn index_order(ix: Seq<KV>, bs: Seq<Seq<KV>>) -> bool {
    &&& ix.len() == bs.len()
    &&& forall|i: int| 0 <= i < bs.len() ==> #[trigger] bs[i].len() > 0 && crate::cmp::lex_lt(bs[i].last().0, ix[i].0)
    &&& forall|i: int| 0 <= i < bs.len() - 1 ==> #[trigger] ix[i].0 == crate::cmp::shortest_sep(bs[i].last().0, bs[i + 1][0].0)
}

/// Adding a block `d` whose index key `sep` sorts after its last key keeps
/// the order, where the previous index key separates the previous block
/// from `d`.
pub proof fn lemma_index_order_push(ix: Seq<KV>, bs: Seq<Seq<KV>>, d: Seq<KV>, sep: Seq<u8>, hb: Seq<u8>)
    requires
        index_order(ix, bs),
        d.len() > 0,
        crate::cmp::lex_lt(d.last().0, sep),
        bs.len() > 0 ==> ix.last().0 == crate::cmp::shortest_sep(bs.last().last().0, d[0].0),
    ensures
        index_order(ix.push((sep, hb)), bs.push(d)),
{
    let ix2 = ix.push((sep, hb));
    let bs2 = bs.push(d);
    assert forall|i: int| 0 <= i < bs2.len() implies #[trigger] bs2[i].len() > 0 && crate::cmp::lex_lt(bs2[i].last().0, ix2[i].0) by {
        if i < bs.len() {
            assert(bs2[i] == bs[i] && ix2[i] == ix[i]);
            assert(bs[i].len() > 0 && crate::cmp::lex_lt(bs[i].last().0, ix[i].0));
        }
    }
    assert forall|i: int| 0 <= i < bs2.len() - 1 implies #[trigger] ix2[i].0 == crate::cmp::shortest_sep(bs2[i].last().0, bs2[i + 1][0].0) by {
        if i < bs.len() - 1 {
            assert(ix[i].0 == crate::cmp::shortest_sep(bs[i].last().0, bs[i + 1][0].0));
        } else {
            assert(i == bs.len() - 1);
        }
    }
}

/// Seeking `key` in a table with index `ix` picks a readable block and, in
/// it, the entry at position `p` among the table's entries.
pub open spec fn seek_lands(file: Seq<u8>, ix: Seq<KV>, key: Seq<u8>, p: int) -> bool {
    &&& seek_from(ix, key, 0) is Some
    &&& indexed_block(file, ix, seek_from(ix, key, 0)->0) is Some
    &&& seek_from(indexed_block(file, ix, seek_from(ix, key, 0)->0)->0, key, 0) is Some
    &&& entries_before(file, ix, seek_from(ix, key, 0)->0)
        + seek_from(indexed_block(file, ix, seek_from(ix, key, 0)->0)->0, key, 0)->0 == p
}

/// Seek law: in an ordered table laid out in `file` whose keys take no zero
/// steps, seeking the key at position `p` picks the index entry of the block
/// that holds it, and within that block lands on it: the two positions add
/// up to `p`.
pub proof fn lemma_seek_lands(file: Seq<u8>, ix: Seq<KV>, hs: Seq<BlockHandle>, bs: Seq<Seq<KV>>, p: int) -> (i: nat)
    requires
        layout(ix, hs, bs, file),
        ordered_table(ix, bs),
        no_zero_step(flatten(bs)),
        0 <= p < flatten(bs).len(),
    ensures
        i < ix.len(),
        seek_from(ix, flatten(bs)[p].0, 0) == Some(i),
        indexed_block(file, ix, i) == Some(bs[i as int]),
        seek_from(bs[i as int], flatten(bs)[p].0, 0) is Some,
        entries_before(file, ix, i) + seek_from(bs[i as int], flatten(bs)[p].0, 0)->0 == p,
        bs[i as int][seek_from(bs[i as int], flatten(bs)[p].0, 0)->0 as int] == flatten(bs)[p],
{
    let c = flatten(bs);
    let k = c[p].0;
    let (i, j) = lemma_flatten_split(bs, p);
    lemma_flatten_at(bs, i, j);
    assert(bs[i].len() > 0 && crate::cmp::lex_lt(bs[i].last().0, ix[i].0));
    lemma_key_below_index(ix, bs, p, i, j);
    crate::cmp::lemma_lt_asym(k, ix[i].0);
    assert forall|q: int| 0 <= q < i implies crate::cmp::lex_lt(#[trigger] ix[q].0, k) by {
        lemma_index_below_key(ix, bs, p, i, q);
    }
    crate::block::lemma_seek_at(ix, k, i as nat, 0);
    assert(parse_handle(ix[i].1) is Some);
    assert(stored_block(file, hs[i]) == Some(bs[i]));
    assert forall|q: int| 0 <= q < j implies crate::cmp::lex_lt(#[trigger] bs[i][q].0, k) by {
        lemma_flatten_at(bs, i, q);
        crate::block::lemma_increasing_lt(c, (flat_before(bs, i) + q) as nat, p as nat);
    }
    crate::cmp::lemma_lt_irrefl(k);
    crate::block::lemma_seek_at(bs[i], k, j as nat, 0);
    lemma_prefix_layout(file, ix, hs, bs, i);
    i as nat
}

/// Under a layout, the first `i` index entries read as the first `i` blocks.
proof fn lemma_prefix_layout(file: Seq<u8>, ix: Seq<KV>, hs: Seq<BlockHandle>, bs: Seq<Seq<KV>>, i: int)
    requires
        layout(ix, hs, bs, file),
        0 <= i <= bs.len(),
    ensures
        entries_before(file, ix, i as nat) == flat_before(bs, i),
{
    let (ix2, hs2, bs2) = (ix.take(i), hs.take(i), bs.take(i));
    assert forall|q: int| 0 <= q < ix2.len() implies #[trigger] parse_handle(ix2[q].1) is Some && (parse_handle(ix2[q].1)->0).0 == hs2[q] by {
        assert(ix2[q] == ix[q]);
        assert(parse_handle(ix[q].1) is Some);
    }
    assert forall|q: int| 0 <= q < ix2.len() implies #[trigger] stored_block(file, hs2[q]) == Some(bs2[q]) by {
        assert(stored_block(file, hs[q]) == Some(bs[q]));
    }
    lemma_blocks_of(file, ix2, hs2, bs2);
}

/// Lookup completeness: in an ordered table laid out in `file`, looking up
/// a stored key without a filter finds its value. Keys that are the key
/// before them followed by a zero byte are left out: there the separator
/// rule gives the next block's first key itself, and the lookup goes to the
/// block before.
pub proof fn lemma_lookup_complete(file: Seq<u8>, ix: Seq<KV>, hs: Seq<BlockHandle>, bs: Seq<Seq<KV>>, p: int)
    requires
        layout(ix, hs, bs, file),
        ordered_table(ix, bs),
        no_zero_step(flatten(bs)),
        0 <= p < flatten(bs).len(),
    ensures
        lookup(file, ix, None, flatten(bs)[p].0) == Some(Some(flatten(bs)[p].1)),
{
    let i = lemma_seek_lands(file, ix, hs, bs, p);
    assert(parse_handle(ix[i as int].1) is Some);
    assert((parse_handle(ix[i as int].1)->0).0 == hs[i as int]);
}

/// Every key of block `i` is admitted by the filter for the 2 KiB range of
/// its offset, where there is such a filter.
pub open spec fn filters_cover(hs: Seq<BlockHandle>, bs: Seq<Seq<KV>>, fs: Seq<Seq<u8>>) -> bool {
    forall|i: int, j: int| 0 <= i < bs.len() && 0 <= j < bs[i].len() && #[trigger] hs[i].offset / 2048 < fs.len() ==>
        crate::filter::bloom_may_match(#[trigger] bs[i][j].0, fs[(hs[i].offset / 2048) as int])
}

/// Lookup completeness with a filter block: where the filters cover the
/// blocks' keys, a lookup through the filter block finds every stored key.
pub proof fn lemma_lookup_complete_filtered(file: Seq<u8>, ix: Seq<KV>, hs: Seq<BlockHandle>, bs: Seq<Seq<KV>>, fs: Seq<Seq<u8>>, p: int)
    requires
        layout(ix, hs, bs, file),
        ordered_table(ix, bs),
        no_zero_step(flatten(bs)),
        filters_cover(hs, bs, fs),
        crate::filter_block::concat(fs).len() <= 0x7fff_ffff,
        0 <= p < flatten(bs).len(),
    ensures
        lookup(file, ix, Some(crate::filter_block::filter_block_bytes(fs)), flatten(bs)[p].0) == Some(Some(flatten(bs)[p].1)),
{
    let i = lemma_seek_lands(file, ix, hs, bs, p) as int;
    let k = flatten(bs)[p].0;
    let j = seek_from(bs[i], k, 0)->0 as int;
    crate::block::lemma_seek_in_range(bs[i], k);
    assert(parse_handle(ix[i].1) is Some);
    assert((parse_handle(ix[i].1)->0).0 == hs[i]);
    crate::filter_block::lemma_filter_block_match(fs, hs[i].offset, k);
    if hs[i].offset / 2048 < fs.len() {
        assert(bs[i][j].0 == k);
        assert(crate::filter::bloom_may_match(bs[i][j].0, fs[(hs[i].offset / 2048) as int]));
    }
    lemma_lookup_complete(file, ix, hs, bs, p);
}

/// The data block a lookup of `key` reads: the one the index entry at or
/// after `key` points to, unless the filter rules the key out there.
pub open spec fn lookup_handle(index: Seq<KV>, filter: Option<Seq<u8>>, key: Seq<u8>) -> Option<BlockHandle> {
    match seek_from(index, key, 0) {
        None => None,
        Some(i) => match parse_handle(index[i as int].1) {
            None => None,
            Some((h, _)) => if filter matches Some(d) && !fb_may_match(d, h.offset, key) {
                None
            } else {
                Some(h)
            },
        },
    }
}

/// An open table.
pub struct Table {
    file: Arc<Vec<u8>>,
    file_size: usize,
    cache_id: CacheID,
    cache: Cache,
    policy: BloomPolicy,
    footer: Footer,
    index_block: Block,
    filters: Option<FilterBlockReader>,
}

impl Table {
    /// The bytes of the table file.
    pub closed spec fn file(&self) -> Seq<u8> {
        self.file@.take(self.file_size as int)
    }

    /// The entries of the index block: a separator and a block handle per
    /// data block.
    pub closed spec fn index(&self) -> Seq<KV> {
        self.index_block.view()
    }

    pub closed spec fn footer(&self) -> Footer {
        self.footer
    }

    /// The bytes of the filter block, if the table has one.
    pub closed spec fn filter(&self) -> Option<Seq<u8>> {
        match self.filters {
            Some(f) => Some(f.data()),
            None => None,
        }
    }

    /// The number of blocks in this table's cache.
    pub closed spec fn cached(&self) -> nat {
        self.cache.items().len()
    }

    /// The entries of this table's cache: table identifier, block offset,
    /// block size and block entries, least recently used first.
    pub closed spec fn cache_items(&self) -> Seq<(CacheID, u64, u64, Seq<KV>)> {
        self.cache.items()
    }

    /// The most blocks this table's cache holds.
    pub closed spec fn cache_cap(&self) -> nat {
        self.cache.cap()
    }

    /// Whether this table's cache holds a block at `offset` of this table.
    pub open spec fn caches(&self, offset: usize) -> bool {
        !lacks_key(self.cache_items(), self.id(), offset as u64)
    }

    pub closed spec fn id(&self) -> CacheID {
        self.cache_id
    }

    pub closed spec fn wf(&self) -> bool {
        &&& self.file_size <= self.file@.len()
        &&& self.cache.wf()
        &&& self.cache_id < self.cache.next()
        &&& stored_block(self.file(), self.footer.index) == Some(self.index_block.view())
        &&& cache_consistent(self.cache.items(), self.cache_id, self.file())
    }

    /// Opens the table held in the first `size` bytes of `file`: reads the
    /// footer, then the index and metaindex blocks (checksums verified),
    /// then the filter block that the metaindex names, and takes a fresh
    /// identifier from the options' block cache, which the table keeps.
    pub fn new(opt: Options, file: Vec<u8>, size: usize) -> (r: Result<Table>)
        requires
            opt.block_cache.wf(),
        ensures
            match r {
                Ok(t) => {
                    &&& t.wf()
                    &&& t.file() == file@.take(size as int)
                    &&& parse_footer(file@.subrange(size - 48, size as int)) == Some(t.footer())
                    &&& stored_block(t.file(), t.footer().meta_index) is Some
                    &&& t.id() == opt.block_cache.next()
                    &&& table_contents(t.file()) == blocks_of(t.file(), t.index())
                    &&& t.index() == table_index(t.file())
                    &&& t.filter() == filter_from_meta(t.file(), stored_block(t.file(), t.footer().meta_index)->0, filter_meta_key(opt.filter_policy))
                    &&& (size == file@.len() ==> t.filter() == table_filter(t.file(), opt.filter_policy))
                },
                Err(_) => {
                ||| size < 48
                ||| size > file@.len()
                ||| parse_footer(file@.subrange(size - 48, size as int)) is None
                ||| stored_block(file@.take(size as int), parse_footer(file@.subrange(size - 48, size as int))->0.index) is None
                ||| stored_block(file@.take(size as int), parse_footer(file@.subrange(size - 48, size as int))->0.meta_index) is None
                ||| (exists|i: int| 0 <= i < (stored_block(file@.take(size as int), parse_footer(file@.subrange(size - 48, size as int))->0.meta_index)->0).len()
                    && !#[trigger] filter_handle_ok(file@.take(size as int), (stored_block(file@.take(size as int), parse_footer(file@.subrange(size - 48, size as int))->0.meta_index)->0)[i].1))
                ||| opt.block_cache.next() == u64::MAX
            },
            },
            size < 48 || size > file@.len() ==> (r matches Err(e) && e.code == StatusCode::Corruption),
            48 <= size <= file@.len() && table_opens(file@.take(size as int)) && opt.block_cache.next() < u64::MAX ==> r is Ok,
            48 <= size <= file@.len() && parse_footer(file@.subrange(size - 48, size as int)) is None
                ==> (r matches Err(e) && e.code == StatusCode::Corruption),
            48 <= size <= file@.len() && parse_footer(file@.subrange(size - 48, size as int)) is Some
                && !frame_ok(file@.take(size as int), parse_footer(file@.subrange(size - 48, size as int))->0.index)
                ==> (r matches Err(e) && e.code == StatusCode::Corruption),
            48 <= size <= file@.len() && parse_footer(file@.subrange(size - 48, size as int)) is Some
                && stored_block(file@.take(size as int), parse_footer(file@.subrange(size - 48, size as int))->0.index) is Some
                && !frame_ok(file@.take(size as int), parse_footer(file@.subrange(size - 48, size as int))->0.meta_index)
                ==> (r matches Err(e) && e.code == StatusCode::Corruption),
    {
        if size > file.len() || size < FULL_FOOTER_LENGTH {
            return Err(Status::new(StatusCode::Corruption, "file too short for a table"));
        }
        assert(file@.take(size as int).subrange(size - 48, size as int) =~= file@.subrange(size - 48, size as int));
        let footer = match Footer::decode(&file.as_slice()[size - FULL_FOOTER_LENGTH..size]) {
            Ok(f) => f,
            Err(e) => return Err(e),
        };
        let data = &file.as_slice()[0..size];
        assert(data@ =~= file@.take(size as int));
        let index_block = match read_table_block(data, &footer.index) {
            Ok(b) => b,
            Err(e) => return Err(e),
        };
        let meta = match read_table_block(data, &footer.meta_index) {
            Ok(b) => b,
            Err(e) => return Err(e),
        };
        let policy = opt.filter_policy;
        let filters = match Table::read_filter_block(&meta, data, &policy) {
            Ok(f) => f,
            Err(e) => {
                assert(parse_footer(file@.subrange(size - 48, size as int)) == Some(footer));
                assert(stored_block(file@.take(size as int), footer.meta_index) == Some(meta.view()));
                proof {
                    let i = choose|i: int| 0 <= i < meta.view().len() && !#[trigger] filter_handle_ok(data@, meta.view()[i].1);
                    assert(!filter_handle_ok(file@.take(size as int), (stored_block(file@.take(size as int), parse_footer(file@.subrange(size - 48, size as int))->0.meta_index)->0)[i].1));
                }
                return Err(e);
            },
        };
        let mut cache = opt.block_cache;
        if cache.next_id() == u64::MAX {
            return Err(Status::new(StatusCode::InvalidArgument, "no cache identifiers left"));
        }
        let cache_id = cache.new_cache_id();
        assert(cache_consistent(cache.items(), cache_id, data@)) by {
            assert forall|i: int| 0 <= i < cache.items().len() implies (#[trigger] cache.items()[i]).0 != cache_id by {
                assert(cache.items()[i].0 < cache_id);
            }
        }
        assert(data@.subrange(size - 48, size as int) =~= file@.subrange(size - 48, size as int));
        Ok(Table {
            file: Arc::new(file),
            file_size: size,
            cache_id,
            cache,
            policy,
            footer,
            index_block,
            filters,
        })
    }

    /// Finds the filter block that the metaindex `metaix` names for
    /// `policy` and reads it (filter blocks carry no verified checksum).
    fn read_filter_block(metaix: &Block, file: &[u8], policy: &BloomPolicy) -> (r: Result<Option<FilterBlockReader>>)
        ensures
            r is Err ==> exists|i: int| 0 <= i < metaix.view().len() && !#[trigger] filter_handle_ok(file@, metaix.view()[i].1),
            r matches Ok(o) ==> match o {
                Some(f) => filter_from_meta(file@, metaix.view(), filter_meta_key(*policy)) == Some(f.data()),
                None => filter_from_meta(file@, metaix.view(), filter_meta_key(*policy)) is None,
            },
    {
        let mut name: Vec<u8> = Vec::new();
        crate::block::extend_bytes(&mut name, "filter.".as_bytes());
        crate::block::extend_bytes(&mut name, policy.name().as_bytes());
        assert(name@ == filter_meta_key(*policy));
        let mut it = metaix.iter();
        it.seek(name.as_slice());
        let mut key: Vec<u8> = Vec::new();
        let mut val: Vec<u8> = Vec::new();
        if !it.current(&mut key, &mut val) {
            return Ok(None);
        }
        proof {
            it.lemma_wf_pos();
        }
        let ghost j = it.pos()->0 as int;
        assert(val@ == metaix.view()[j].1);
        match compare_bytes(key.as_slice(), name.as_slice()) {
            core::cmp::Ordering::Equal => {
                proof {
                    crate::cmp::lemma_compare_equal(key@, name@);
                }
            },
            _ => {
                proof {
                    if key@ == name@ {
                        crate::cmp::lemma_compare_refl(key@);
                    }
                }
                return Ok(None);
            },
        }
        proof {
            it.lemma_wf_pos();
        }
        let h = match BlockHandle::decode(val.as_slice()) {
            Some((h, _)) => h,
            None => {
                assert(!filter_handle_ok(file@, metaix.view()[j].1));
                return Err(Status::new(StatusCode::Corruption, "bad filter block handle"));
            },
        };
        if h.size == 0 {
            return Ok(None);
        }
        if h.offset > file.len() || h.size > file.len() - h.offset {
            assert(!filter_handle_ok(file@, metaix.view()[j].1));
            return Err(Status::new(StatusCode::Corruption, "filter block lies outside the file"));
        }
        let bytes = crate::cmp::bytes_to_vec(&file[h.offset..h.offset + h.size]);
        assert(bytes@ == file@.subrange(h.offset as int, h.offset + h.size));
        Ok(Some(FilterBlockReader::new(*policy, bytes)))
    }

    /// Closes the table and hands back its block cache, so that the next
    /// table opened with it takes a later identifier and shares its blocks'
    /// capacity.
    pub fn release_cache(self) -> (r: Cache)
        requires
            self.wf(),
        ensures
            r.wf(),
            r.next() > self.id(),
            r.items() == self.cache_items(),
            r.cap() == self.cache_cap(),
    {
        self.cache
    }

    /// The number of blocks in this table's cache.
    pub fn cache_count(&self) -> (r: usize)
        ensures
            r == self.cached(),
    {
        self.cache.count()
    }

    /// This table's cache identifier.
    pub fn cache_id(&self) -> (r: CacheID)
        ensures
            r == self.id(),
    {
        self.cache_id
    }

    /// The reader of the filter block, if the table has one.
    pub fn filters(&self) -> (r: Option<&FilterBlockReader>)
        ensures
            r is Some == self.filter() is Some,
            r matches Some(f) ==> self.filter() == Some(f.data()),
    {
        match &self.filters {
            Some(f) => Some(f),
            None => None,
        }
    }

    /// Whether the table has a filter block.
    pub fn has_filter(&self) -> (r: bool)
        ensures
            r == self.filter() is Some,
    {
        self.filters.is_some()
    }

    /// The block that `h` points to, from the cache where it is there with
    /// the same size, else from the file (and then cached).
    fn read_block(&mut self, h: &BlockHandle) -> (r: Result<Block>)
        requires
            old(self).wf(),
        ensures
            final(self).wf(),
            final(self).file() == old(self).file(),
            final(self).index() == old(self).index(),
            final(self).footer() == old(self).footer(),
            final(self).filter() == old(self).filter(),
            final(self).id() == old(self).id(),
            match r {
                Ok(b) => stored_block(old(self).file(), *h) == Some(b.view()),
                Err(_) => stored_block(old(self).file(), *h) is None,
            },
            final(self).cache_cap() == old(self).cache_cap(),
            old(self).caches(h.offset) ==> final(self).cached() == old(self).cached(),
            !old(self).caches(h.offset) && r is Err ==> final(self).cache_items() == old(self).cache_items(),
            !old(self).caches(h.offset) && r is Ok && old(self).cached() < old(self).cache_cap() ==> final(self).cached() == old(self).cached() + 1,
            r is Ok && old(self).cache_cap() > 0 ==> final(self).caches(h.offset),
    {
        let data = &self.file.as_slice()[0..self.file_size];
        assert(data@ == self.file());
        let ghost items0 = self.cache.items();
        let cached = self.cache.get(self.cache_id, h.offset as u64);
        proof {
            lemma_cache_consistent_subset(items0, self.cache.items(), -1, self.cache_id, self.file());
        }
        proof {
            if !lacks_key(items0, self.cache_id, h.offset as u64) {
                let k = choose|k: int| 0 <= k < items0.len() && #[trigger] holds_key(items0, self.cache_id, h.offset as u64, k);
                lemma_first_key_exists(items0, self.cache_id, h.offset as u64, k);
                let i = choose|i: int| #[trigger] first_key(items0, self.cache_id, h.offset as u64, i);
                assert(holds_key(self.cache.items(), self.cache_id, h.offset as u64, self.cache.items().len() - 1));
            }
        }
        if let Some((size, b)) = cached {
            if size == h.size as u64 {
                proof {
                    let j = choose|j: int| 0 <= j < items0.len() && items0[j] == (self.cache_id, h.offset as u64, size, b.view());
                    assert(items0[j].0 == self.cache_id);
                    assert(!lacks_key(self.cache.items(), self.cache_id, h.offset as u64));
                }
                return Ok(b);
            }
        }
        let data = &self.file.as_slice()[0..self.file_size];
        let b = match read_table_block(data, h) {
            Ok(b) => b,
            Err(e) => return Err(e),
        };
        let copy = b.duplicate();
        let ghost items1 = self.cache.items();
        proof {
            if !lacks_key(items1, self.cache_id, h.offset as u64) {
                let k = choose|k: int| 0 <= k < items1.len() && #[trigger] holds_key(items1, self.cache_id, h.offset as u64, k);
                lemma_first_key_exists(items1, self.cache_id, h.offset as u64, k);
            }
        }
        self.cache.insert(self.cache_id, h.offset as u64, h.size as u64, copy);
        proof {
            if self.cache.cap() > 0 {
                if !lacks_key(items1, self.cache_id, h.offset as u64) {
                    let k = choose|k: int| 0 <= k < items1.len() && #[trigger] holds_key(items1, self.cache_id, h.offset as u64, k);
                    lemma_first_key_exists(items1, self.cache_id, h.offset as u64, k);
                    let i = choose|i: int| #[trigger] first_key(items1, self.cache_id, h.offset as u64, i);
                    assert(first_key(items1, self.cache_id, h.offset as u64, i));
                }
                assert(self.cache.items().len() >= 1);
                assert(holds_key(self.cache.items(), self.cache_id, h.offset as u64, self.cache.items().len() - 1));
                assert(!lacks_key(self.cache.items(), self.cache_id, h.offset as u64));
            }
            let n = self.cache.items().len();
            if n == items1.len() && self.cache.items() == items1 {
                lemma_cache_consistent_subset(items1, self.cache.items(), -1, self.cache_id, self.file());
            } else {
                assert(seq![self.cache.items()[n - 1]][0] == self.cache.items()[n - 1]);
                lemma_cache_consistent_subset(items1, self.cache.items(), n - 1, self.cache_id, self.file());
            }
        }
        Ok(b)
    }

    /// The offset of the data block that would hold `key`; past the last
    /// block, the offset of the metaindex block.
    pub fn approx_offset_of(&self, key: &[u8]) -> (r: usize)
        requires
            self.wf(),
        ensures
            r == match seek_from(self.index(), key@, 0) {
                Some(i) => match parse_handle(self.index()[i as int].1) {
                    Some((h, _)) => h.offset,
                    None => self.footer().meta_index.offset,
                },
                None => self.footer().meta_index.offset,
            },
    {
        let mut it = self.index_block.iter();
        it.seek(key);
        let mut k: Vec<u8> = Vec::new();
        let mut v: Vec<u8> = Vec::new();
        if it.current(&mut k, &mut v) {
            if let Some((h, _)) = BlockHandle::decode(v.as_slice()) {
                return h.offset;
            }
        }
        self.footer.meta_index.offset
    }

    /// Looks `key` up: `Ok(Some(value))` where the table holds it,
    /// `Ok(None)` where the index, the filter or the block shows it absent,
    /// and an error where a block it needs cannot be read.
    pub fn get(&mut self, key: &[u8]) -> (r: Result<Option<Vec<u8>>>)
        requires
            old(self).wf(),
        ensures
            final(self).wf(),
            final(self).file() == old(self).file(),
            final(self).index() == old(self).index(),
            final(self).footer() == old(self).footer(),
            final(self).filter() == old(self).filter(),
            final(self).id() == old(self).id(),
            match r {
                Ok(Some(v)) => lookup(old(self).file(), old(self).index(), old(self).filter(), key@) == Some(Some(v@)),
                Ok(None) => lookup(old(self).file(), old(self).index(), old(self).filter(), key@) == Some(None::<Seq<u8>>),
                Err(_) => lookup(old(self).file(), old(self).index(), old(self).filter(), key@) is None,
            },
            final(self).cache_cap() == old(self).cache_cap(),
            lookup_handle(old(self).index(), old(self).filter(), key@) is None ==> final(self).cache_items() == old(self).cache_items(),
            lookup_handle(old(self).index(), old(self).filter(), key@) matches Some(h) ==> {
                &&& old(self).caches(h.offset) ==> final(self).cached() == old(self).cached()
                &&& !old(self).caches(h.offset) && r is Ok && old(self).cached() < old(self).cache_cap()
                    ==> final(self).cached() == old(self).cached() + 1
                &&& r is Ok && old(self).cache_cap() > 0 ==> final(self).caches(h.offset)
            },
    {
        let mut index_iter = self.index_block.iter();
        index_iter.seek(key);
        let mut sep: Vec<u8> = Vec::new();
        let mut hv: Vec<u8> = Vec::new();
        if !index_iter.current(&mut sep, &mut hv) {
            return Ok(None);
        }
        let h = match BlockHandle::decode(hv.as_slice()) {
            Some((h, _)) => h,
            None => return Err(Status::new(StatusCode::Corruption, "bad block handle in index")),
        };
        if let Some(f) = &self.filters {
            if !f.key_may_match(h.offset, key) {
                return Ok(None);
            }
        }
        let block = match self.read_block(&h) {
            Ok(b) => b,
            Err(e) => return Err(e),
        };
        let mut it = block.iter();
        it.seek(key);
        let mut k: Vec<u8> = Vec::new();
        let mut v: Vec<u8> = Vec::new();
        if it.current(&mut k, &mut v) {
            match compare_bytes(k.as_slice(), key) {
                core::cmp::Ordering::Equal => {
                    proof {
                        crate::cmp::lemma_compare_equal(k@, key@);
                    }
                    return Ok(Some(v));
                },
                _ => {
                    proof {
                        crate::cmp::lemma_compare_refl(key@);
                    }
                },
            }
        }
        Ok(None)
    }

    /// A copy of this table: it shares the file and copies the rest.
    pub fn duplicate(&self) -> (r: Table)
        requires
            self.wf(),
        ensures
            r.wf(),
            r.file() == self.file(),
            r.index() == self.index(),
            r.footer() == self.footer(),
            r.filter() == self.filter(),
            r.id() == self.id(),
            r.cached() == self.cached(),
    {
        let filters = match &self.filters {
            Some(f) => Some(f.duplicate()),
            None => None,
        };
        Table {
            file: share_file(&self.file),
            file_size: self.file_size,
            cache_id: self.cache_id,
            cache: self.cache.duplicate(),
            policy: self.policy,
            footer: self.footer,
            index_block: self.index_block.duplicate(),
            filters,
        }
    }

    /// An iterator over the entries of this table, before the first one.
    /// It works on a copy of the table, block cache included.
    pub fn iter(&self) -> (r: TableIterator)
        requires
            self.wf(),
        ensures
            r.wf(),
            r.file() == self.file(),
            r.index() == self.index(),
            !r.is_valid(),
            r.index_pos() is None,
            r.block() is None,
    {
        TableIterator {
            table: self.duplicate(),
            current_block: None,
            current_block_off: 0,
            index_block: self.index_block.iter(),
        }
    }
}

/// The block that index entry `i` points to, if its handle parses and the
/// block is sound.
pub open spec fn indexed_block(file: Seq<u8>, index: Seq<KV>, i: nat) -> Option<Seq<KV>> {
    if i < index.len() {
        match parse_handle(index[i as int].1) {
            Some((h, _)) => stored_block(file, h),
            None => None,
        }
    } else {
        None
    }
}

/// The number of entries in the first `i` data blocks.
pub open spec fn entries_before(file: Seq<u8>, ix: Seq<KV>, i: nat) -> nat {
    (blocks_of(file, ix.take(i as int))->0).len()
}

/// Where every data block can be read, the contents split block by block.
pub proof fn lemma_blocks_of_take(file: Seq<u8>, ix: Seq<KV>)
    requires
        blocks_of(file, ix) is Some,
    ensures
        forall|i: nat| i <= ix.len() ==> #[trigger] blocks_of(file, ix.take(i as int)) is Some,
        forall|i: nat| i < ix.len() ==> #[trigger] indexed_block(file, ix, i) is Some
            && blocks_of(file, ix.take(i as int + 1))->0 == blocks_of(file, ix.take(i as int))->0 + indexed_block(file, ix, i)->0,
        blocks_of(file, ix.take(ix.len() as int)) == blocks_of(file, ix),
    decreases ix.len(),
{
    assert(ix.take(ix.len() as int) =~= ix);
    if ix.len() > 0 {
        let n = (ix.len() - 1) as nat;
        let d = ix.drop_last();
        lemma_blocks_of_take(file, d);
        assert forall|i: nat| i <= ix.len() implies #[trigger] blocks_of(file, ix.take(i as int)) is Some by {
            if i <= n {
                assert(ix.take(i as int) =~= d.take(i as int));
            }
        }
        assert forall|i: nat| i < ix.len() implies #[trigger] indexed_block(file, ix, i) is Some
            && blocks_of(file, ix.take(i as int + 1))->0 == blocks_of(file, ix.take(i as int))->0 + indexed_block(file, ix, i)->0 by {
            if i < n {
                assert(ix.take(i as int) =~= d.take(i as int));
                assert(ix.take(i as int + 1) =~= d.take(i as int + 1));
                assert(ix[i as int] == d[i as int]);
                assert(indexed_block(file, d, i) is Some);
            } else {
                assert(ix.take(i as int) =~= d);
                assert(ix.take(i as int + 1) =~= ix);
                assert(ix.last() == ix[i as int]);
            }
        }
    }
}

/// The contents of the first `m` blocks begin with those of the first `i + 1`.
proof fn lemma_blocks_of_prefix(file: Seq<u8>, ix: Seq<KV>, i: nat, m: nat)
    requires
        blocks_of(file, ix) is Some,
        i < m <= ix.len(),
    ensures
        (blocks_of(file, ix.take(m as int))->0).take(entries_before(file, ix, i + 1) as int) == blocks_of(file, ix.take(i as int + 1))->0,
        entries_before(file, ix, i + 1) <= entries_before(file, ix, m),
    decreases m - i,
{
    lemma_blocks_of_take(file, ix);
    if m > i + 1 {
        lemma_blocks_of_prefix(file, ix, i, (m - 1) as nat);
        let a = blocks_of(file, ix.take(m - 1))->0;
        let b = blocks_of(file, ix.take(m as int))->0;
        assert(b == a + indexed_block(file, ix, (m - 1) as nat)->0);
        assert(b.take(entries_before(file, ix, i + 1) as int) =~= a.take(entries_before(file, ix, i + 1) as int));
    } else {
        let b = blocks_of(file, ix.take(m as int))->0;
        assert(b.take(b.len() as int) =~= b);
    }
}

/// Entry `j` of data block `i` stands at `entries_before(i) + j` in the contents.
pub proof fn lemma_contents_at(file: Seq<u8>, ix: Seq<KV>, i: nat, j: nat)
    requires
        blocks_of(file, ix) is Some,
        i < ix.len(),
        j < (indexed_block(file, ix, i)->0).len(),
    ensures
        entries_before(file, ix, i) + j < (blocks_of(file, ix)->0).len(),
        (blocks_of(file, ix)->0)[(entries_before(file, ix, i) + j) as int] == (indexed_block(file, ix, i)->0)[j as int],
        entries_before(file, ix, i + 1) == entries_before(file, ix, i) + (indexed_block(file, ix, i)->0).len(),
{
    lemma_blocks_of_take(file, ix);
    lemma_blocks_of_prefix(file, ix, i, ix.len());
    let c = blocks_of(file, ix)->0;
    let p = blocks_of(file, ix.take(i as int + 1))->0;
    assert(c.take(p.len() as int)[(entries_before(file, ix, i) + j) as int] == c[(entries_before(file, ix, i) + j) as int]);
}

/// Each data block adds its entries to the count, and the count of all
/// blocks is the number of entries.
pub proof fn lemma_before_step(file: Seq<u8>, ix: Seq<KV>, i: nat)
    requires
        blocks_of(file, ix) is Some,
        i < ix.len(),
    ensures
        indexed_block(file, ix, i) is Some,
        entries_before(file, ix, i + 1) == entries_before(file, ix, i) + (indexed_block(file, ix, i)->0).len(),
        entries_before(file, ix, i + 1) <= (blocks_of(file, ix)->0).len(),
        entries_before(file, ix, 0) == 0,
        entries_before(file, ix, ix.len()) == (blocks_of(file, ix)->0).len(),
{
    lemma_blocks_of_take(file, ix);
    assert(blocks_of(file, ix.take(i as int + 1)) is Some);
    assert(indexed_block(file, ix, i) is Some);
    lemma_blocks_of_prefix(file, ix, i, ix.len());
    assert(ix.take(0) =~= Seq::<KV>::empty());
}

/// A cursor position as an integer, before the first being -1.
pub open spec fn pos_int(p: Option<nat>) -> int {
    match p {
        Some(i) => i as int,
        None => -1,
    }
}

/// Every data block strictly between index positions `a` and `b` could be
/// read and holds no entry.
pub open spec fn skipped_empty(file: Seq<u8>, ix: Seq<KV>, a: int, b: int) -> bool {
    forall|q: int| a < q < b ==> #[trigger] indexed_block(file, ix, q as nat) is Some
        && (indexed_block(file, ix, q as nat)->0).len() == 0
}

/// Walks a table in key order: a cursor over the index block and one over
/// the data block that the index cursor points to.
pub struct TableIterator {
    table: Table,
    current_block: Option<BlockIter>,
    current_block_off: usize,
    index_block: BlockIter,
}

impl TableIterator {
    pub closed spec fn file(&self) -> Seq<u8> {
        self.table.file()
    }

    pub closed spec fn index(&self) -> Seq<KV> {
        self.table.index()
    }

    /// The position of the index cursor.
    pub closed spec fn index_pos(&self) -> Option<nat> {
        self.index_block.pos()
    }

    /// The entries of the current data block, if one is loaded.
    pub closed spec fn block(&self) -> Option<Seq<KV>> {
        match self.current_block {
            Some(cb) => Some(cb.entries()),
            None => None,
        }
    }

    /// The position within the current data block.
    pub closed spec fn block_pos(&self) -> Option<nat> {
        match self.current_block {
            Some(cb) => cb.pos(),
            None => None,
        }
    }

    /// Whether every data block of the table can be read.
    pub open spec fn readable(&self) -> bool {
        blocks_of(self.file(), self.index()) is Some
    }

    /// The entries of the table, block after block.
    pub open spec fn contents(&self) -> Seq<KV> {
        blocks_of(self.file(), self.index())->0
    }

    /// Whether every data block holds at least one entry.
    pub open spec fn blocks_nonempty(&self) -> bool {
        forall|i: nat| i < self.index().len() ==> (#[trigger] indexed_block(self.file(), self.index(), i)->0).len() > 0
    }

    /// Valid, or before the first entry with nothing loaded.
    pub open spec fn settled(&self) -> bool {
        self.is_valid() || (self.index_pos() is None && self.block() is None)
    }

    /// The position of the current entry among the table's entries.
    pub open spec fn flat_pos(&self) -> Option<nat> {
        if self.is_valid() {
            Some(entries_before(self.file(), self.index(), self.index_pos()->0) + self.block_pos()->0)
        } else {
            None
        }
    }

    /// Whether the iterator stands on an entry.
    pub open spec fn is_valid(&self) -> bool {
        self.block_pos() is Some
    }

    /// The entry the iterator stands on.
    pub open spec fn entry(&self) -> KV {
        self.block()->0[self.block_pos()->0 as int]
    }

    /// The table and the index cursor are sound.
    pub closed spec fn base_wf(&self) -> bool {
        &&& self.table.wf()
        &&& self.index_block.wf()
        &&& self.index_block.entries() == self.table.index()
    }

    pub closed spec fn wf(&self) -> bool {
        &&& self.base_wf()
        &&& self.current_block matches Some(cb) ==> {
            &&& cb.wf()
            &&& self.index_block.pos() matches Some(i) && indexed_block(self.table.file(), self.table.index(), i) == Some(cb.entries())
            &&& (parse_handle(self.table.index()[self.index_block.pos()->0 as int].1)->0).0.offset == self.current_block_off
        }
    }

    /// The number of blocks in the iterator's cache.
    pub closed spec fn cached(&self) -> nat {
        self.table.cached()
    }

    /// The number of blocks in the iterator's cache.
    pub fn cache_count(&self) -> (r: usize)
        requires
            self.wf(),
        ensures
            r == self.cached(),
    {
        self.table.cache_count()
    }

    /// The offset of the current data block in the file.
    pub fn current_block_offset(&self) -> (r: usize)
        requires
            self.wf(),
        ensures
            self.block() is Some ==> r == (parse_handle(self.index()[self.index_pos()->0 as int].1)->0).0.offset,
    {
        self.current_block_off
    }

    /// The table this iterator walks (a copy of the one it was made from).
    pub fn table(&self) -> (r: &Table)
        ensures
            r.file() == self.file(),
            r.index() == self.index(),
    {
        &self.table
    }

    /// Loads the block that the index cursor points to, positioned before
    /// its first entry.
    fn load_current(&mut self) -> (r: Result<()>)
        requires
            old(self).base_wf(),
            old(self).index_pos() is Some,
        ensures
            final(self).wf(),
            final(self).file() == old(self).file(),
            final(self).index() == old(self).index(),
            final(self).index_pos() == old(self).index_pos(),
            r is Ok ==> final(self).block() == indexed_block(old(self).file(), old(self).index(), old(self).index_pos()->0)
                && final(self).block() is Some && final(self).block_pos() is None,
            r is Err ==> indexed_block(old(self).file(), old(self).index(), old(self).index_pos()->0) is None
                && final(self).block() is None,
    {
        self.current_block = None;
        let mut k: Vec<u8> = Vec::new();
        let mut v: Vec<u8> = Vec::new();
        self.index_block.current(&mut k, &mut v);
        let ghost i = self.index_block.pos()->0;
        assert(v@ == self.table.index()[i as int].1);
        let h = match BlockHandle::decode(v.as_slice()) {
            Some((h, _)) => h,
            None => return Err(Status::new(StatusCode::Corruption, "bad block handle in index")),
        };
        let ghost f0 = self.table.file();
        let block = match self.table.read_block(&h) {
            Ok(b) => b,
            Err(e) => return Err(e),
        };
        assert(stored_block(f0, h) == Some(block.view()));
        assert(indexed_block(self.table.file(), self.table.index(), i) == Some(block.view()));
        self.current_block = Some(block.iter());
        self.current_block_off = h.offset;
        Ok(())
    }

    /// Moves to the next entry, loading following blocks as needed. Returns
    /// false, before the first entry again, at the end or where a block
    /// cannot be read.
    pub fn advance(&mut self) -> (r: bool)
        requires
            old(self).wf(),
        ensures
            final(self).wf(),
            final(self).file() == old(self).file(),
            final(self).index() == old(self).index(),
            r == final(self).is_valid(),
            !r ==> final(self).index_pos() is None && final(self).block() is None,
            old(self).block() is Some && next_pos((old(self).block()->0).len(), old(self).block_pos()) is Some ==> {
                &&& final(self).block() == old(self).block()
                &&& final(self).index_pos() == old(self).index_pos()
                &&& final(self).block_pos() == next_pos((old(self).block()->0).len(), old(self).block_pos())
            },
            r ==> final(self).block() == indexed_block(final(self).file(), final(self).index(), final(self).index_pos()->0),
            old(self).readable() && old(self).settled() ==> final(self).settled()
                && final(self).flat_pos() == next_pos(old(self).contents().len(), old(self).flat_pos()),
            old(self).block() is Some && next_pos((old(self).block()->0).len(), old(self).block_pos()) is Some
                ==> final(self).cached() == old(self).cached(),
            r ==> pos_int(final(self).index_pos()) >= pos_int(old(self).index_pos())
                && skipped_empty(old(self).file(), old(self).index(), pos_int(old(self).index_pos()), pos_int(final(self).index_pos())),
    {
        let n = self.index_block.len();
        let ghost start = pos_int(old(self).index_pos());
        let ghost clean = old(self).readable() && old(self).settled();
        let ghost target: nat = match old(self).flat_pos() {
            Some(p) => p + 1,
            None => 0,
        };
        let ghost file = old(self).file();
        let ghost ix = old(self).index();
        proof {
            if clean {
                lemma_blocks_of_take(file, ix);
                if ix.len() > 0 {
                    lemma_before_step(file, ix, 0);
                }
                if old(self).is_valid() {
                    let i0 = old(self).index_pos()->0;
                    lemma_before_step(file, ix, i0);
                }
            }
        }
        loop
            invariant
                self.wf(),
                n == self.index().len(),
                self.file() == old(self).file(),
                self.index() == old(self).index(),
                file == self.file(),
                ix == self.index(),
                clean == (old(self).readable() && old(self).settled()),
                target == match old(self).flat_pos() {
                    Some(p) => p + 1,
                    None => 0nat,
                },
                clean ==> blocks_of(file, ix) is Some,
                clean && self.block_pos() is Some ==> self.index_pos() == old(self).index_pos() && self.block() == old(self).block()
                    && self.block_pos() == old(self).block_pos() && old(self).is_valid(),
                clean && self.block() is Some && self.block_pos() is None ==> self.index_pos() is Some
                    && entries_before(file, ix, self.index_pos()->0) == target,
                clean && self.block() is None ==> self.index_pos() is None && old(self).flat_pos() is None,
                clean && old(self).is_valid() ==> target == entries_before(file, ix, old(self).index_pos()->0) + old(self).block_pos()->0 + 1,
                clean && old(self).flat_pos() is None ==> target == 0,
                old(self).block() is Some && next_pos((old(self).block()->0).len(), old(self).block_pos()) is Some ==> self.block() == old(self).block() && self.index_pos() == old(self).index_pos() && self.block_pos() == old(self).block_pos(),
                start == pos_int(old(self).index_pos()),
                old(self).block() is Some && next_pos((old(self).block()->0).len(), old(self).block_pos()) is Some
                    ==> self.cached() == old(self).cached(),
                pos_int(self.index_pos()) >= start,
                self.block() is None ==> self.index_pos() == old(self).index_pos(),
                self.block_pos() is Some ==> self.index_pos() == old(self).index_pos(),
                self.block() is Some && pos_int(self.index_pos()) > start ==> self.block_pos() is None,
                skipped_empty(file, ix, start, pos_int(self.index_pos())),
            decreases n + 1 - match self.index_block.pos() { Some(i) => i + 1, None => 0 },
        {
            let ghost i_now = self.index_pos();
            let ghost blk = self.block();
            let ghost bpos = self.block_pos();
            proof {
                if clean && i_now is Some {
                    lemma_before_step(file, ix, i_now->0);
                }
                if self.current_block is Some {
                    (self.current_block->0).lemma_wf_pos();
                    assert(blk == indexed_block(file, ix, i_now->0));
                }
            }
            if let Some(cb) = &mut self.current_block {
                if cb.advance() {
                    proof {
                        if clean {
                            let i = self.index_pos()->0;
                            (self.current_block->0).lemma_wf_pos();
                            assert(self.block() == indexed_block(file, ix, i));
                            assert(self.block_pos()->0 < (indexed_block(file, ix, i)->0).len());
                        }
                    }
                    return true;
                }
            }
            proof {
                if i_now is Some && blk is Some && pos_int(i_now) > start {
                    assert(bpos is None);
                    assert(next_pos((blk->0).len(), bpos) is None);
                    assert((blk->0).len() == 0);
                    assert(blk == indexed_block(file, ix, i_now->0));
                }
                assert(skipped_empty(file, ix, start, pos_int(i_now) + 1)) by {
                    assert forall|q: int| start < q < pos_int(i_now) + 1 implies #[trigger] indexed_block(file, ix, q as nat) is Some
                        && (indexed_block(file, ix, q as nat)->0).len() == 0 by {
                        if q < pos_int(i_now) {
                            assert(skipped_empty(file, ix, start, pos_int(i_now)));
                        }
                    }
                }
                if clean && i_now is Some {
                    let len = (blk->0).len();
                    assert(blk is Some);
                    assert(next_pos(len, bpos) is None);
                    if bpos is Some {
                        assert(bpos->0 + 1 == len);
                    } else {
                        assert(len == 0);
                    }
                    assert(entries_before(file, ix, i_now->0 + 1) == target);
                }
            }
            self.current_block = None;
            if !self.index_block.advance() {
                proof {
                    if clean {
                        if n > 0 {
                            lemma_before_step(file, ix, (n - 1) as nat);
                            assert(i_now == Some((n - 1) as nat));
                        } else {
                            assert(ix.len() == 0);
                        }
                        assert(target == (blocks_of(file, ix)->0).len());
                    }
                }
                self.reset_inner();
                return false;
            }
            let ghost before_load = self.index_pos();
            let loaded = self.load_current();
            if loaded.is_err() {
                proof {
                    if clean {
                        lemma_blocks_of_take(file, ix);
                        self.index_block.lemma_wf_pos();
                        assert(self.index_pos() == before_load);
                        assert(indexed_block(file, ix, before_load->0) is Some);
                        assert(indexed_block(file, ix, before_load->0) is None);
                    }
                }
                self.reset_inner();
                return false;
            }
        }
    }

    /// Moves to the first entry at or after `key` in the block that the
    /// index entry at or after `key` points to; not valid where there is no
    /// such index entry, the block cannot be read, or every key in it sorts
    /// before `key`.
    pub fn seek(&mut self, key: &[u8])
        requires
            old(self).wf(),
        ensures
            final(self).wf(),
            final(self).file() == old(self).file(),
            final(self).index() == old(self).index(),
            final(self).index_pos() == seek_from(old(self).index(), key@, 0) || final(self).index_pos() is None,
            seek_from(old(self).index(), key@, 0) is None ==> !final(self).is_valid(),
            final(self).is_valid() ==> {
                &&& final(self).block() == indexed_block(old(self).file(), old(self).index(), seek_from(old(self).index(), key@, 0)->0)
                &&& final(self).block_pos() == seek_from(final(self).block()->0, key@, 0)
            },
            seek_from(old(self).index(), key@, 0) is Some && indexed_block(old(self).file(), old(self).index(), seek_from(old(self).index(), key@, 0)->0) is Some
                ==> final(self).block_pos() == seek_from(indexed_block(old(self).file(), old(self).index(), seek_from(old(self).index(), key@, 0)->0)->0, key@, 0),
    {
        self.index_block.seek(key);
        if !self.index_block.valid() {
            self.reset_inner();
            return;
        }
        if self.load_current().is_err() {
            self.reset_inner();
            return;
        }
        if let Some(cb) = &mut self.current_block {
            cb.seek(key);
        }
    }

    /// Moves to the previous entry, loading the previous block where the
    /// current one has none before. Returns whether the iterator is valid.
    pub fn prev(&mut self) -> (r: bool)
        requires
            old(self).wf(),
        ensures
            final(self).wf(),
            final(self).file() == old(self).file(),
            final(self).index() == old(self).index(),
            r == final(self).is_valid(),
            old(self).block() is Some && prev_pos(old(self).block_pos()) is Some ==> {
                &&& final(self).block() == old(self).block()
                &&& final(self).index_pos() == old(self).index_pos()
                &&& final(self).block_pos() == prev_pos(old(self).block_pos())
            },
            old(self).readable() && old(self).settled() && old(self).blocks_nonempty() ==> final(self).settled()
                && final(self).flat_pos() == prev_pos(old(self).flat_pos()),
    {
        let ghost clean = old(self).readable() && old(self).settled() && old(self).blocks_nonempty();
        let ghost file = self.file();
        let ghost ix = self.index();
        let ghost i_now = self.index_pos();
        proof {
            if clean && self.is_valid() {
                self.index_block.lemma_wf_pos();
                (self.current_block->0).lemma_wf_pos();
            }
        }
        if let Some(cb) = &mut self.current_block {
            if cb.prev() {
                return true;
            }
        }
        if !self.index_block.prev() {
            self.current_block = None;
            return false;
        }
        proof {
            if clean {
                let i = i_now->0;
                assert(i > 0);
                lemma_before_step(file, ix, (i - 1) as nat);
                assert(indexed_block(file, ix, (i - 1) as nat) is Some);
                assert((indexed_block(file, ix, (i - 1) as nat)->0).len() > 0);
            }
        }
        let loaded = self.load_current();
        if loaded.is_err() {
            proof {
                if clean {
                    lemma_blocks_of_take(file, ix);
                    assert(indexed_block(file, ix, (i_now->0 - 1) as nat) is Some);
                }
            }
            self.reset_inner();
            return false;
        }
        match &mut self.current_block {
            Some(cb) => {
                cb.seek_to_last();
                cb.valid()
            },
            None => false,
        }
    }

    /// Moves before the first entry, from any state whose table and index
    /// cursor are sound.
    fn reset_inner(&mut self)
        requires
            old(self).base_wf(),
        ensures
            final(self).wf(),
            final(self).file() == old(self).file(),
            final(self).index() == old(self).index(),
            final(self).index_pos() is None,
            final(self).block() is None,
            !final(self).is_valid(),
    {
        self.index_block.reset();
        self.current_block = None;
    }

    /// Moves before the first entry.
    pub fn reset(&mut self)
        requires
            old(self).wf(),
        ensures
            final(self).wf(),
            final(self).file() == old(self).file(),
            final(self).index() == old(self).index(),
            final(self).index_pos() is None,
            final(self).block() is None,
            !final(self).is_valid(),
    {
        self.reset_inner();
    }

    /// Whether the iterator stands on an entry.
    pub fn valid(&self) -> (r: bool)
        requires
            self.wf(),
        ensures
            r == self.is_valid(),
    {
        match &self.current_block {
            Some(cb) => cb.valid(),
            None => false,
        }
    }

    /// Copies the current entry into `key` and `val`; returns false, leaving
    /// them as they were, where the iterator is not valid.
    pub fn current(&self, key: &mut Vec<u8>, val: &mut Vec<u8>) -> (r: bool)
        requires
            self.wf(),
        ensures
            r == self.is_valid(),
            r ==> final(key)@ == self.entry().0 && final(val)@ == self.entry().1,
            !r ==> final(key)@ == old(key)@ && final(val)@ == old(val)@,
    {
        match &self.current_block {
            Some(cb) => cb.current(key, val),
            None => false,
        }
    }

    /// The key of the current entry, if the iterator is valid.
    pub fn current_key(&self) -> (r: Option<&[u8]>)
        requires
            self.wf(),
        ensures
            match r {
                Some(k) => self.is_valid() && k@ == self.entry().0,
                None => !self.is_valid(),
            },
    {
        match &self.current_block {
            Some(cb) => cb.current_key(),
            None => None,
        }
    }

    /// Advances and returns the entry reached, if any.
    pub fn next(&mut self) -> (r: Option<(Vec<u8>, Vec<u8>)>)
        requires
            old(self).wf(),
        ensures
            final(self).wf(),
            final(self).file() == old(self).file(),
            final(self).index() == old(self).index(),
            r is Some == final(self).is_valid(),
            r matches Some((k, v)) ==> k@ == final(self).entry().0 && v@ == final(self).entry().1,
            old(self).readable() && old(self).settled() ==> final(self).settled()
                && final(self).flat_pos() == next_pos(old(self).contents().len(), old(self).flat_pos()),
    {
        if !self.advance() {
            return None;
        }
        current_key_val(self)
    }

    /// Moves to the first entry.
    pub fn seek_to_first(&mut self)
        requires
            old(self).wf(),
        ensures
            final(self).wf(),
            final(self).file() == old(self).file(),
            final(self).index() == old(self).index(),
            old(self).readable() ==> final(self).settled()
                && final(self).flat_pos() == next_pos(old(self).contents().len(), None),
    {
        self.reset();
        self.advance();
    }
}

/// Where every block of the table can be read, the entry an iterator stands
/// on is the entry at its position among the table's entries.
pub proof fn lemma_iterator_entry(it: &TableIterator)
    requires
        it.wf(),
        it.readable(),
        it.is_valid(),
    ensures
        it.flat_pos()->0 < it.contents().len(),
        it.entry() == it.contents()[it.flat_pos()->0 as int],
{
    let i = it.index_pos()->0;
    (it.current_block->0).lemma_wf_pos();
    it.index_block.lemma_wf_pos();
    lemma_contents_at(it.file(), it.index(), i, it.block_pos()->0);
}

/// The current key and value of `it`, if it is valid.
pub fn current_key_val(it: &TableIterator) -> (r: Option<(Vec<u8>, Vec<u8>)>)
    requires
        it.wf(),
    ensures
        r is Some == it.is_valid(),
        r matches Some((k, v)) ==> k@ == it.entry().0 && v@ == it.entry().1,
{
    let mut k: Vec<u8> = Vec::new();
    let mut v: Vec<u8> = Vec::new();
    if it.current(&mut k, &mut v) {
        Some((k, v))
    } else {
        None
    }
}

} // verus!
