//! Building, reading and walking blocks of sorted, prefix-compressed entries.
use vstd::prelude::*;

use crate::block_spec::{entry_bytes, join, keys_increasing, last_key_or, lemma_parse_entries_push, lemma_parse_entry_prefix, lemma_read_varint_prefix, parse_block, parse_entries, parse_entry, KV};
use crate::cmp::{lex_lt};
use crate::coding::{u32_of_le, get_fixed32, get_varint, lemma_fixed32_roundtrip, lemma_varint_u64, le32, put_fixed32, put_varint};
use crate::error::{Result, Status, StatusCode};

verus! {

/// Appends `src` to `dst`.
pub fn extend_bytes(dst: &mut Vec<u8>, src: &[u8])
    ensures
        final(dst)@ == old(dst)@ + src@,
{
    let mut i: usize = 0;
    while i < src.len()
        invariant
            i <= src.len(),
            dst@ == old(dst)@ + src@.take(i as int),
        decreases src.len() - i,
    {
        dst.push(src[i]);
        i = i + 1;
        assert(dst@ =~= old(dst)@ + src@.take(i as int));
    }
    assert(src@.take(src.len() as int) =~= src@);
}

/// Appends the bytes of one entry that shares `shared` bytes with the
/// previous key.
fn put_entry(buf: &mut Vec<u8>, shared: usize, key: &[u8], val: &[u8])
    requires
        shared <= key.len(),
    ensures
        final(buf)@ == old(buf)@ + entry_bytes(shared as nat, key@.skip(shared as int), val@),
{
    let non_shared = key.len() - shared;
    put_varint(buf, shared as u64);
    put_varint(buf, non_shared as u64);
    put_varint(buf, val.len() as u64);
    extend_bytes(buf, &key[shared..key.len()]);
    extend_bytes(buf, val);
    assert(key@.subrange(shared as int, key@.len() as int) =~= key@.skip(shared as int));
    assert(buf@ =~= old(buf)@ + entry_bytes(shared as nat, key@.skip(shared as int), val@));
}

/// Assembles one block from entries given in increasing key order.
pub struct BlockBuilder {
    restart_interval: usize,
    buffer: Vec<u8>,
    restarts: Vec<u32>,
    last_key: Vec<u8>,
    restart_counter: usize,
    counter: usize,
    entries: Ghost<Seq<KV>>,
}

/// The bytes that `finish` adds after the entries for the given restart offsets.
pub open spec fn restart_bytes(rs: Seq<u32>) -> Seq<u8>
    decreases rs.len(),
{
    if rs.len() == 0 {
        Seq::empty()
    } else {
        restart_bytes(rs.drop_last()) + le32(rs.last())
    }
}

impl BlockBuilder {
    /// The entries added so far.
    pub closed spec fn entries(&self) -> Seq<KV> {
        self.entries@
    }

    /// The size of the block that `finish` would give now.
    pub closed spec fn size(&self) -> nat {
        self.buffer@.len() + 4 * self.restarts@.len() + 4
    }

    /// Every how many entries a key is stored whole.
    pub closed spec fn interval(&self) -> nat {
        self.restart_interval as nat
    }

    pub closed spec fn wf(&self) -> bool {
        &&& self.restart_interval >= 1
        &&& self.restart_counter <= self.restart_interval
        &&& self.counter == self.entries@.len()
        &&& self.counter <= self.buffer@.len()
        &&& self.restarts@.len() >= 1
        &&& self.buffer@.len() + 4 * self.restarts@.len() + 4 <= u32::MAX
        &&& parse_entries(self.buffer@, Seq::empty()) == Some(self.entries@)
        &&& self.last_key@ == last_key_or(self.entries@, Seq::empty())
        &&& keys_increasing(self.entries@)
    }

    /// An empty builder that stores every `restart_interval`-th key whole.
    pub fn new(restart_interval: usize) -> (r: BlockBuilder)
        requires
            restart_interval >= 1,
        ensures
            r.wf(),
            r.entries() == Seq::<KV>::empty(),
            r.size() == 8,
            r.interval() == restart_interval,
    {
        let mut restarts: Vec<u32> = Vec::new();
        restarts.push(0);
        BlockBuilder {
            restart_interval,
            buffer: Vec::new(),
            restarts,
            last_key: Vec::new(),
            restart_counter: 0,
            counter: 0,
            entries: Ghost(Seq::empty()),
        }
    }

    /// The number of entries added so far.
    pub fn entries_count(&self) -> (r: usize)
        requires
            self.wf(),
        ensures
            r == self.entries().len(),
    {
        self.counter
    }

    /// The key most recently added (empty if none was).
    pub fn last_key(&self) -> (r: &[u8])
        requires
            self.wf(),
        ensures
            r@ == last_key_or(self.entries(), Seq::empty()),
    {
        self.last_key.as_slice()
    }

    /// The size of the block that `finish` would give now.
    pub fn size_estimate(&self) -> (r: usize)
        requires
            self.wf(),
        ensures
            r == self.size(),
    {
        self.buffer.len() + 4 * self.restarts.len() + 4
    }

    /// Adds an entry whose key sorts after every key added before.
    #[verifier::rlimit(50)]
    pub fn add(&mut self, key: &[u8], val: &[u8])
        requires
            old(self).wf(),
            old(self).entries().len() == 0 || lex_lt(old(self).entries().last().0, key@),
            old(self).size() + key@.len() + val@.len() + 34 <= u32::MAX,
        ensures
            final(self).wf(),
            final(self).entries() == old(self).entries().push((key@, val@)),
            final(self).size() <= old(self).size() + key@.len() + val@.len() + 34,
            final(self).interval() == old(self).interval(),
    {
        let ghost prev = self.last_key@;
        let mut shared: usize = 0;
        if self.restart_counter < self.restart_interval {
            shared = crate::cmp::shared_prefix_len(self.last_key.as_slice(), key);
            proof {
                crate::cmp::lemma_common_prefix_props(prev, key@);
            }
        } else {
            self.restarts.push(self.buffer.len() as u32);
            self.restart_counter = 0;
            assert(prev.take(0) =~= key@.take(0));
        }
        let ghost old_buf = self.buffer@;
        put_entry(&mut self.buffer, shared, key, val);
        proof {
            lemma_parse_entries_push(old_buf, self.entries@, key@, val@, shared as nat);
            lemma_entry_len(shared as nat, key@.skip(shared as int), val@);
            lemma_increasing_push(self.entries@, key@, val@);
        }
        self.last_key = crate::cmp::bytes_to_vec(key);
        self.restart_counter = self.restart_counter + 1;
        self.counter = self.counter + 1;
        self.entries = Ghost(self.entries@.push((key@, val@)));
    }

    /// The finished block: the entries, the restart offsets and their number.
    pub fn finish(self) -> (r: Vec<u8>)
        requires
            self.wf(),
        ensures
            parse_block(r@) == Some(self.entries()),
            r@.len() == self.size(),
    {
        let mut buf = self.buffer;
        let ghost body = buf@;
        let mut i: usize = 0;
        while i < self.restarts.len()
            invariant
                i <= self.restarts@.len(),
                buf@ == body + restart_bytes(self.restarts@.take(i as int)),
                restart_bytes(self.restarts@.take(i as int)).len() == 4 * i,
            decreases self.restarts@.len() - i,
        {
            proof {
                assert(self.restarts@.take(i + 1).drop_last() =~= self.restarts@.take(i as int));
            }
            put_fixed32(&mut buf, self.restarts[i]);
            i = i + 1;
            assert(buf@ =~= body + restart_bytes(self.restarts@.take(i as int)));
        }
        let nr = self.restarts.len() as u32;
        let ghost before = buf@;
        put_fixed32(&mut buf, nr);
        proof {
            lemma_fixed32_roundtrip(nr, Seq::empty());
            assert(le32(nr) + Seq::<u8>::empty() =~= le32(nr));
            assert(buf@.skip(buf@.len() - 4) =~= le32(nr));
            assert(buf@.take(buf@.len() - 4 - 4 * nr) =~= body);
        }
        buf
    }
}

/// Adding a key above the last one keeps the keys increasing.
pub proof fn lemma_increasing_push(es: Seq<KV>, key: Seq<u8>, val: Seq<u8>)
    requires
        keys_increasing(es),
        es.len() == 0 || lex_lt(es.last().0, key),
    ensures
        keys_increasing(es.push((key, val))),
{
    let es2 = es.push((key, val));
    assert forall|i: int| 0 < i < es2.len() implies lex_lt(es2[i - 1].0, #[trigger] es2[i].0) by {
        if i < es.len() {
            assert(es2[i] == es[i] && es2[i - 1] == es[i - 1]);
        }
    }
}

proof fn lemma_entry_len(shared: nat, tail: Seq<u8>, value: Seq<u8>)
    requires
        shared <= u64::MAX,
        tail.len() <= u64::MAX,
        value.len() <= u64::MAX,
    ensures
        entry_bytes(shared, tail, value).len() <= 30 + tail.len() + value.len(),
        entry_bytes(shared, tail, value).len() >= 3,
{
    crate::coding::lemma_read_varint(shared, Seq::empty());
    crate::coding::lemma_read_varint(tail.len(), Seq::empty());
    crate::coding::lemma_read_varint(value.len(), Seq::empty());
    lemma_varint_u64(shared as u64);
    lemma_varint_u64(tail.len() as u64);
    lemma_varint_u64(value.len() as u64);
}

/// A parsed block: its entries, in file order.
pub struct Block {
    entries: Vec<(Vec<u8>, Vec<u8>)>,
}

/// The keys and values of a sequence of byte-vector pairs.
pub open spec fn kv_view(v: Seq<(Vec<u8>, Vec<u8>)>) -> Seq<KV> {
    Seq::new(v.len(), |i: int| (v[i].0@, v[i].1@))
}

/// Reads one entry of `s` at `pos`, the previous key being `prev`.
fn read_entry(s: &[u8], pos: usize, prev: &[u8]) -> (r: Option<(Vec<u8>, Vec<u8>, usize)>)
    requires
        pos <= s.len(),
    ensures
        match r {
            Some((k, v, n)) => parse_entry(s@.skip(pos as int), prev@) == Some((k@, v@, n as nat)),
            None => parse_entry(s@.skip(pos as int), prev@) is None,
        },
{
    let ghost t = s@.skip(pos as int);
    let plen = prev.len();
    let slen = s.len();
    assert(t.len() <= u64::MAX && prev@.len() <= u64::MAX);
    let (sh, n1) = match get_varint(s, pos, 10) {
        Some(x) => x,
        None => return None,
    };
    proof {
        lemma_read_varint_prefix(t, Seq::empty());
        assert(t + Seq::<u8>::empty() =~= t);
        assert(s@.skip((pos + n1) as int) =~= t.skip(n1 as int));
    }
    let (nl, n2) = match get_varint(s, pos + n1, 10) {
        Some(x) => x,
        None => return None,
    };
    proof {
        lemma_read_varint_prefix(t.skip(n1 as int), Seq::empty());
        assert(t.skip(n1 as int) + Seq::<u8>::empty() =~= t.skip(n1 as int));
        assert(s@.skip((pos + n1 + n2) as int) =~= t.skip((n1 + n2) as int));
    }
    let (vl, n3) = match get_varint(s, pos + n1 + n2, 10) {
        Some(x) => x,
        None => return None,
    };
    proof {
        lemma_read_varint_prefix(t.skip((n1 + n2) as int), Seq::empty());
        assert(t.skip((n1 + n2) as int) + Seq::<u8>::empty() =~= t.skip((n1 + n2) as int));
    }
    let p = pos + n1 + n2 + n3;
    if sh > prev.len() as u64 {
        return None;
    }
    if nl > (s.len() - p) as u64 {
        return None;
    }
    let nl = nl as usize;
    if vl > (s.len() - p - nl) as u64 {
        return None;
    }
    let vl = vl as usize;
    let sh = sh as usize;
    let mut key = crate::cmp::bytes_to_vec(&prev[0..sh]);
    extend_bytes(&mut key, &s[p..p + nl]);
    let value = crate::cmp::bytes_to_vec(&s[p + nl..p + nl + vl]);
    proof {
        let q = (n1 + n2 + n3) as int;
        assert(s@.subrange(p as int, (p + nl) as int) =~= t.subrange(q, q + nl));
        assert(s@.subrange((p + nl) as int, (p + nl + vl) as int) =~= t.subrange(q + nl, q + nl + vl));
        assert(prev@.subrange(0, sh as int) =~= prev@.take(sh as int));
    }
    Some((key, value, p + nl + vl - pos))
}

impl Block {
    /// The entries of this block.
    pub closed spec fn view(&self) -> Seq<KV> {
        kv_view(self.entries@)
    }

    /// Parses block contents; fails with `Corruption` exactly where
    /// `parse_block` finds no block.
    pub fn new(contents: &[u8]) -> (r: Result<Block>)
        ensures
            match r {
                Ok(b) => parse_block(contents@) == Some(b.view()),
                Err(e) => parse_block(contents@) is None && e.code == StatusCode::Corruption,
            },
    {
        let n = contents.len();
        if n < 4 {
            return Err(Status::new(StatusCode::Corruption, "block too short"));
        }
        let nr = get_fixed32(contents, n - 4);
        if nr as usize > (n - 4) / 4 {
            assert(4 * nr + 4 > n) by (nonlinear_arith)
                requires
                    nr > (n - 4) / 4,
                    n >= 4,
            ;
            return Err(Status::new(StatusCode::Corruption, "bad restart count"));
        }
        assert(4 * nr + 4 <= n) by (nonlinear_arith)
            requires
                nr <= (n - 4) / 4,
                n >= 4,
        ;
        let end = n - 4 - 4 * (nr as usize);
        let body = &contents[0..end];
        assert(body@ =~= contents@.take(n - 4 - 4 * nr));
        let mut entries: Vec<(Vec<u8>, Vec<u8>)> = Vec::new();
        let mut prev: Vec<u8> = Vec::new();
        let mut pos: usize = 0;
        assert(body@.skip(0) =~= body@);
        assert(kv_view(entries@) =~= Seq::<KV>::empty());
        while pos < end
            invariant
                pos <= end,
                end == body@.len(),
                n == contents@.len(),
                n >= 4,
                u32_of_le(contents@.skip(n - 4)) == nr,
                4 * nr + 4 <= n,
                body@ == contents@.take(n - 4 - 4 * nr),
                parse_entries(body@, Seq::empty()) == join(kv_view(entries@), parse_entries(body@.skip(pos as int), prev@)),
                prev@ == last_key_or(kv_view(entries@), Seq::empty()),
            decreases end - pos,
        {
            match read_entry(body, pos, prev.as_slice()) {
                Some((k, v, m)) => {
                    proof {
                        let t = body@.skip(pos as int);
                        lemma_parse_entry_prefix(t, Seq::empty(), prev@);
                        assert(t.skip(m as int) =~= body@.skip(pos + m));
                        let ev = kv_view(entries@);
                        match parse_entries(t.skip(m as int), k@) {
                            Some(rest) => {
                                assert(ev + (seq![(k@, v@)] + rest) =~= ev.push((k@, v@)) + rest);
                            },
                            None => {},
                        }
                    }
                    prev = crate::cmp::bytes_to_vec(k.as_slice());
                    let ghost old_entries = entries@;
                    entries.push((k, v));
                    assert(kv_view(entries@) =~= kv_view(old_entries).push((k@, v@)));
                    pos = pos + m;
                },
                None => {
                    assert(body@.skip(pos as int).len() > 0);
                    assert(parse_entries(body@.skip(pos as int), prev@) is None);
                    assert(parse_entries(body@, Seq::empty()) is None);
                    assert(u32_of_le(contents@.skip(contents@.len() - 4)) == nr);
                    assert(contents@.take(contents@.len() - 4 - 4 * nr) == body@);
                    assert(parse_block(contents@) is None);
                    return Err(Status::new(StatusCode::Corruption, "bad block entry"));
                },
            }
        }
        assert(body@.skip(pos as int) =~= Seq::<u8>::empty());
        assert(kv_view(entries@) + Seq::<KV>::empty() =~= kv_view(entries@));
        Ok(Block { entries })
    }

    /// The number of entries.
    pub fn len(&self) -> (r: usize)
        ensures
            r == self.view().len(),
    {
        self.entries.len()
    }

    /// A copy of this block.
    pub fn duplicate(&self) -> (r: Block)
        ensures
            r.view() == self.view(),
    {
        let mut out: Vec<(Vec<u8>, Vec<u8>)> = Vec::with_capacity(self.entries.len());
        let mut i: usize = 0;
        while i < self.entries.len()
            invariant
                i <= self.entries@.len(),
                kv_view(out@) == self.view().take(i as int),
            decreases self.entries@.len() - i,
        {
            let k = crate::cmp::bytes_to_vec(self.entries[i].0.as_slice());
            let v = crate::cmp::bytes_to_vec(self.entries[i].1.as_slice());
            let ghost old_out = out@;
            out.push((k, v));
            assert(kv_view(out@) =~= kv_view(old_out).push((k@, v@)));
            i = i + 1;
            assert(kv_view(out@) =~= self.view().take(i as int));
        }
        assert(self.view().take(i as int) =~= self.view());
        Block { entries: out }
    }

    /// A cursor over this block, before its first entry.
    pub fn iter(&self) -> (r: BlockIter)
        ensures
            r.entries() == self.view(),
            r.pos() is None,
            r.wf(),
    {
        BlockIter { block: self.duplicate(), current: None }
    }

    /// Copies the key of entry `i` into `key` and its value into `val`.
    fn copy_entry(&self, i: usize, key: &mut Vec<u8>, val: &mut Vec<u8>)
        requires
            i < self.view().len(),
        ensures
            final(key)@ == self.view()[i as int].0,
            final(val)@ == self.view()[i as int].1,
    {
        *key = crate::cmp::bytes_to_vec(self.entries[i].0.as_slice());
        *val = crate::cmp::bytes_to_vec(self.entries[i].1.as_slice());
    }

    fn key_at(&self, i: usize) -> (r: &[u8])
        requires
            i < self.view().len(),
        ensures
            r@ == self.view()[i as int].0,
    {
        self.entries[i].0.as_slice()
    }
}

/// The position after `p` in a sequence of `n` entries: from before the
/// first entry to the first, from the last entry back to before the first.
pub open spec fn next_pos(n: nat, p: Option<nat>) -> Option<nat> {
    match p {
        None => if n > 0 { Some(0) } else { None },
        Some(i) => if i + 1 < n { Some(i + 1) } else { None },
    }
}

/// The position before `p`; from the first entry, before the first.
pub open spec fn prev_pos(p: Option<nat>) -> Option<nat> {
    match p {
        Some(i) => if i > 0 { Some((i - 1) as nat) } else { None },
        None => None,
    }
}

/// The first position at or after `i` whose key does not sort before `key`.
pub open spec fn seek_from(es: Seq<KV>, key: Seq<u8>, i: nat) -> Option<nat>
    decreases es.len() - i,
{
    if i >= es.len() {
        None
    } else if !lex_lt(es[i as int].0, key) {
        Some(i)
    } else {
        seek_from(es, key, i + 1)
    }
}

/// The last position, if any.
pub open spec fn last_pos(n: nat) -> Option<nat> {
    if n > 0 { Some((n - 1) as nat) } else { None }
}

/// A cursor over the entries of a block. Before the first entry and after
/// the last it is not valid.
pub struct BlockIter {
    block: Block,
    current: Option<usize>,
}

impl BlockIter {
    pub closed spec fn entries(&self) -> Seq<KV> {
        self.block.view()
    }

    pub closed spec fn pos(&self) -> Option<nat> {
        match self.current {
            Some(i) => Some(i as nat),
            None => None,
        }
    }

    pub closed spec fn wf(&self) -> bool {
        self.current matches Some(i) ==> i < self.block.view().len()
    }

    /// A sound cursor stands within its block.
    pub proof fn lemma_wf_pos(&self)
        requires
            self.wf(),
        ensures
            self.pos() is Some ==> self.pos()->0 < self.entries().len(),
    {
    }

    /// The number of entries in the block.
    pub fn len(&self) -> (r: usize)
        ensures
            r == self.entries().len(),
    {
        self.block.len()
    }

    /// Moves to the next entry; returns whether there is one.
    pub fn advance(&mut self) -> (r: bool)
        requires
            old(self).wf(),
        ensures
            final(self).wf(),
            final(self).entries() == old(self).entries(),
            final(self).pos() == next_pos(old(self).entries().len(), old(self).pos()),
            r == final(self).pos() is Some,
    {
        let n = self.block.len();
        self.current = match self.current {
            None => if n > 0 { Some(0) } else { None },
            Some(i) => if i + 1 < n { Some(i + 1) } else { None },
        };
        self.current.is_some()
    }

    /// Moves to the previous entry; returns whether there is one.
    pub fn prev(&mut self) -> (r: bool)
        requires
            old(self).wf(),
        ensures
            final(self).wf(),
            final(self).entries() == old(self).entries(),
            final(self).pos() == prev_pos(old(self).pos()),
            r == final(self).pos() is Some,
    {
        self.current = match self.current {
            Some(i) => if i > 0 { Some(i - 1) } else { None },
            None => None,
        };
        self.current.is_some()
    }

    /// Moves to the first entry whose key does not sort before `key`; not
    /// valid if there is none.
    pub fn seek(&mut self, key: &[u8])
        requires
            old(self).wf(),
        ensures
            final(self).wf(),
            final(self).entries() == old(self).entries(),
            final(self).pos() == seek_from(old(self).entries(), key@, 0),
    {
        let n = self.block.len();
        let mut i: usize = 0;
        while i < n
            invariant
                i <= n,
                n == self.block.view().len(),
                self.block.view() == old(self).block.view(),
                seek_from(self.block.view(), key@, i as nat) == seek_from(self.block.view(), key@, 0),
            decreases n - i,
        {
            let k = self.block.key_at(i);
            let below = match crate::cmp::compare_bytes(k, key) {
                core::cmp::Ordering::Less => true,
                _ => false,
            };
            if !below {
                assert(!lex_lt(self.block.view()[i as int].0, key@));
                assert(seek_from(self.block.view(), key@, i as nat) == Some(i as nat));
                self.current = Some(i);
                return;
            }
            assert(lex_lt(self.block.view()[i as int].0, key@));
            assert(seek_from(self.block.view(), key@, i as nat) == seek_from(self.block.view(), key@, (i + 1) as nat));
            i = i + 1;
        }
        self.current = None;
    }

    /// Moves to the last entry; not valid if the block is empty.
    pub fn seek_to_last(&mut self)
        requires
            old(self).wf(),
        ensures
            final(self).wf(),
            final(self).entries() == old(self).entries(),
            final(self).pos() == last_pos(old(self).entries().len()),
    {
        let n = self.block.len();
        self.current = if n > 0 { Some(n - 1) } else { None };
    }

    /// Moves before the first entry.
    pub fn reset(&mut self)
        ensures
            final(self).entries() == old(self).entries(),
            final(self).pos() is None,
            final(self).wf(),
    {
        self.current = None;
    }

    /// Whether the cursor stands on an entry.
    pub fn valid(&self) -> (r: bool)
        ensures
            r == self.pos() is Some,
    {
        self.current.is_some()
    }

    /// Copies the current entry into `key` and `val`; returns false and
    /// leaves them as they were if the cursor is not valid.
    pub fn current(&self, key: &mut Vec<u8>, val: &mut Vec<u8>) -> (r: bool)
        requires
            self.wf(),
        ensures
            r == self.pos() is Some,
            r ==> self.pos()->0 < self.entries().len(),
            r ==> final(key)@ == self.entries()[self.pos()->0 as int].0 && final(val)@ == self.entries()[self.pos()->0 as int].1,
            !r ==> final(key)@ == old(key)@ && final(val)@ == old(val)@,
    {
        match self.current {
            Some(i) => {
                self.block.copy_entry(i, key, val);
                true
            },
            None => false,
        }
    }

    /// The key of the current entry, if the cursor is valid.
    pub fn current_key(&self) -> (r: Option<&[u8]>)
        requires
            self.wf(),
        ensures
            match r {
                Some(k) => self.pos() is Some && self.pos()->0 < self.entries().len() && k@ == self.entries()[self.pos()->0 as int].0,
                None => self.pos() is None,
            },
    {
        match self.current {
            Some(i) => Some(self.block.key_at(i)),
            None => None,
        }
    }
}

/// Cursor law: from any entry but the last, advancing and then stepping back
/// returns to that entry.
pub proof fn lemma_advance_then_prev(n: nat, i: nat)
    requires
        i + 1 < n,
    ensures
        prev_pos(next_pos(n, Some(i))) == Some(i),
{
}

/// Cursor law: in a block whose keys strictly increase, seeking the key of
/// an entry lands on that entry.
pub proof fn lemma_seek_own_key(es: Seq<KV>, i: nat)
    requires
        keys_increasing(es),
        i < es.len(),
    ensures
        seek_from(es, es[i as int].0, 0) == Some(i),
{
    lemma_seek_own_key_from(es, i, 0);
}

/// A seek position lies within the sequence.
pub proof fn lemma_seek_in_range(es: Seq<KV>, key: Seq<u8>)
    ensures
        seek_from(es, key, 0) matches Some(j) ==> j < es.len(),
{
    lemma_seek_from_range(es, key, 0);
}

proof fn lemma_seek_from_range(es: Seq<KV>, key: Seq<u8>, i: nat)
    ensures
        seek_from(es, key, i) matches Some(j) ==> i <= j < es.len(),
    decreases es.len() - i,
{
    if i < es.len() && lex_lt(es[i as int].0, key) {
        lemma_seek_from_range(es, key, i + 1);
    }
}

/// The seek lands on the first entry whose key does not sort before `key`.
pub proof fn lemma_seek_at(es: Seq<KV>, key: Seq<u8>, i: nat, j: nat)
    requires
        i < es.len(),
        j <= i,
        forall|q: int| j <= q < i ==> lex_lt(#[trigger] es[q].0, key),
        !lex_lt(es[i as int].0, key),
    ensures
        seek_from(es, key, j) == Some(i),
    decreases i - j,
{
    if j < i {
        assert(lex_lt(es[j as int].0, key));
        lemma_seek_at(es, key, i, j + 1);
    }
}

proof fn lemma_seek_own_key_from(es: Seq<KV>, i: nat, j: nat)
    requires
        keys_increasing(es),
        i < es.len(),
        j <= i,
    ensures
        seek_from(es, es[i as int].0, j) == Some(i),
    decreases i - j,
{
    if j < i {
        lemma_increasing_lt(es, j, i);
        lemma_seek_own_key_from(es, i, j + 1);
    } else {
        crate::cmp::lemma_compare_refl(es[i as int].0);
    }
}

/// In a sequence whose keys strictly increase, every earlier key sorts
/// before every later one.
pub proof fn lemma_increasing_lt(es: Seq<KV>, j: nat, i: nat)
    requires
        keys_increasing(es),
        j < i < es.len(),
    ensures
        lex_lt(es[j as int].0, es[i as int].0),
    decreases i - j,
{
    if j + 1 < i {
        lemma_increasing_lt(es, j, (i - 1) as nat);
        assert(lex_lt(es[i - 1].0, es[i as int].0));
        crate::cmp::lemma_lt_trans(es[j as int].0, es[i - 1].0, es[i as int].0);
    } else {
        assert(lex_lt(es[i - 1].0, es[i as int].0));
    }
}

} // verus!
