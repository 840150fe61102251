//! The block format as mathematics: how entries are encoded and how bytes
//! are read back, with the lemmas that connect the two.
use vstd::prelude::*;

use crate::cmp::lex_lt;
use crate::coding::{lemma_read_varint, lemma_varint_u64, read_varint, u32_of_le, varint};

verus! {

/// A key and its value.
pub type KV = (Seq<u8>, Seq<u8>);

/// The bytes of one entry: the length of the prefix it shares with the
/// previous key, the length of the rest of the key, the length of the value,
/// the rest of the key, and the value.
pub open spec fn entry_bytes(shared: nat, tail: Seq<u8>, value: Seq<u8>) -> Seq<u8> {
    varint(shared) + varint(tail.len()) + varint(value.len()) + tail + value
}

/// Reads one entry at the start of `s`, the previous key being `prev`: the
/// full key, the value and the number of bytes the entry takes. Each varint
/// takes at most ten bytes.
pub open spec fn parse_entry(s: Seq<u8>, prev: Seq<u8>) -> Option<(Seq<u8>, Seq<u8>, nat)> {
    match read_varint(s) {
        None => None,
        Some((sh, n1)) => match read_varint(s.skip(n1 as int)) {
            None => None,
            Some((nl, n2)) => match read_varint(s.skip((n1 + n2) as int)) {
                None => None,
                Some((vl, n3)) => {
                    let p = n1 + n2 + n3;
                    if n1 <= 10 && n2 <= 10 && n3 <= 10 && sh <= prev.len() && p + nl + vl <= s.len() {
                        Some((prev.take(sh as int) + s.subrange(p as int, (p + nl) as int),
                            s.subrange((p + nl) as int, (p + nl + vl) as int), p + nl + vl))
                    } else {
                        None
                    }
                },
            },
        },
    }
}

/// Reads all entries of `s`, the key before the first being `prev`.
pub open spec fn parse_entries(s: Seq<u8>, prev: Seq<u8>) -> Option<Seq<KV>>
    decreases s.len(),
{
    if s.len() == 0 {
        Some(Seq::empty())
    } else {
        match parse_entry(s, prev) {
            None => None,
            Some((k, v, n)) => if n == 0 || n > s.len() {
                None
            } else {
                match parse_entries(s.skip(n as int), k) {
                    None => None,
                    Some(rest) => Some(seq![(k, v)] + rest),
                }
            },
        }
    }
}

/// Reads a block: entries, then the restart offsets, then their number as
/// four little-endian bytes.
pub open spec fn parse_block(b: Seq<u8>) -> Option<Seq<KV>> {
    if b.len() < 4 {
        None
    } else {
        let nr = u32_of_le(b.skip(b.len() - 4));
        if 4 * nr + 4 > b.len() {
            None
        } else {
            parse_entries(b.take(b.len() - 4 - 4 * nr), Seq::empty())
        }
    }
}

/// `prefix` followed by what `rest` holds, if it holds anything.
pub open spec fn join(prefix: Seq<KV>, rest: Option<Seq<KV>>) -> Option<Seq<KV>> {
    match rest {
        Some(r) => Some(prefix + r),
        None => None,
    }
}

/// The key of the last entry of `es`, or `prev` if there is none.
pub open spec fn last_key_or(es: Seq<KV>, prev: Seq<u8>) -> Seq<u8> {
    if es.len() == 0 {
        prev
    } else {
        es.last().0
    }
}

/// Keys strictly increase from each entry to the next.
pub open spec fn keys_increasing(es: Seq<KV>) -> bool {
    forall|i: int| 0 < i < es.len() ==> lex_lt(es[i - 1].0, #[trigger] es[i].0)
}

/// Reading a varint does not look past its end.
pub proof fn lemma_read_varint_prefix(a: Seq<u8>, b: Seq<u8>)
    requires
        read_varint(a) is Some,
    ensures
        read_varint(a + b) == read_varint(a),
        (read_varint(a)->0).1 >= 1,
        (read_varint(a)->0).1 <= a.len(),
    decreases a.len(),
{
    if a[0] >= 128 {
        assert((a + b).drop_first() =~= a.drop_first() + b);
        lemma_read_varint_prefix(a.drop_first(), b);
    }
}

/// Reading an entry does not look past its end.
pub proof fn lemma_parse_entry_prefix(a: Seq<u8>, b: Seq<u8>, prev: Seq<u8>)
    requires
        parse_entry(a, prev) is Some,
    ensures
        parse_entry(a + b, prev) == parse_entry(a, prev),
        (parse_entry(a, prev)->0).2 >= 3,
        (parse_entry(a, prev)->0).2 <= a.len(),
{
    let s = a + b;
    let (sh, n1) = read_varint(a)->0;
    lemma_read_varint_prefix(a, b);
    assert(s.skip(n1 as int) =~= a.skip(n1 as int) + b);
    let (nl, n2) = read_varint(a.skip(n1 as int))->0;
    lemma_read_varint_prefix(a.skip(n1 as int), b);
    assert(s.skip((n1 + n2) as int) =~= a.skip((n1 + n2) as int) + b);
    let (vl, n3) = read_varint(a.skip((n1 + n2) as int))->0;
    lemma_read_varint_prefix(a.skip((n1 + n2) as int), b);
    let p = n1 + n2 + n3;
    assert(s.subrange(p as int, (p + nl) as int) =~= a.subrange(p as int, (p + nl) as int));
    assert(s.subrange((p + nl) as int, (p + nl + vl) as int) =~= a.subrange((p + nl) as int, (p + nl + vl) as int));
}

/// Reading the entries of `a` followed by `b` reads those of `a`, then those
/// of `b` after the last key of `a`.
pub proof fn lemma_parse_entries_append(a: Seq<u8>, b: Seq<u8>, prev: Seq<u8>)
    requires
        parse_entries(a, prev) is Some,
    ensures
        parse_entries(a + b, prev) == join(parse_entries(a, prev)->0, parse_entries(b, last_key_or(parse_entries(a, prev)->0, prev))),
    decreases a.len(),
{
    let es = parse_entries(a, prev)->0;
    if a.len() == 0 {
        assert(a + b =~= b);
        assert(es =~= Seq::<KV>::empty());
        match parse_entries(b, prev) {
            Some(r) => { assert(es + r =~= r); },
            None => {},
        }
    } else {
        let (k, v, n) = parse_entry(a, prev)->0;
        lemma_parse_entry_prefix(a, b, prev);
        assert((a + b).skip(n as int) =~= a.skip(n as int) + b);
        lemma_parse_entries_append(a.skip(n as int), b, k);
        let rest = parse_entries(a.skip(n as int), k)->0;
        assert(es == seq![(k, v)] + rest);
        assert(last_key_or(es, prev) == last_key_or(rest, k));
        match parse_entries(b, last_key_or(rest, k)) {
            Some(r) => { assert(seq![(k, v)] + (rest + r) =~= es + r); },
            None => {},
        }
    }
}

/// An entry written with a prefix that it shares with the previous key reads
/// back as its key and value.
pub proof fn lemma_parse_entry_bytes(key: Seq<u8>, value: Seq<u8>, prev: Seq<u8>, shared: nat, rest: Seq<u8>)
    requires
        shared <= prev.len(),
        shared <= key.len(),
        prev.take(shared as int) == key.take(shared as int),
        key.len() <= u64::MAX,
        value.len() <= u64::MAX,
    ensures
        parse_entry(entry_bytes(shared, key.skip(shared as int), value) + rest, prev)
            == Some((key, value, entry_bytes(shared, key.skip(shared as int), value).len())),
{
    let tail = key.skip(shared as int);
    let e = entry_bytes(shared, tail, value);
    let s = e + rest;
    let (v1, v2, v3) = (varint(shared), varint(tail.len()), varint(value.len()));
    lemma_varint_u64(shared as u64);
    lemma_varint_u64(tail.len() as u64);
    lemma_varint_u64(value.len() as u64);
    assert(s =~= v1 + (v2 + v3 + tail + value + rest));
    lemma_read_varint(shared, v2 + v3 + tail + value + rest);
    assert(s.skip(v1.len() as int) =~= v2 + (v3 + tail + value + rest));
    lemma_read_varint(tail.len(), v3 + tail + value + rest);
    assert(s.skip((v1.len() + v2.len()) as int) =~= v3 + (tail + value + rest));
    lemma_read_varint(value.len(), tail + value + rest);
    let p = v1.len() + v2.len() + v3.len();
    assert(s.subrange(p as int, (p + tail.len()) as int) =~= tail);
    assert(s.subrange((p + tail.len()) as int, (p + tail.len() + value.len()) as int) =~= value);
    assert(prev.take(shared as int) + tail =~= key) by {
        assert(key =~= key.take(shared as int) + tail);
    }
}

/// A buffer that reads as `es`, followed by one more entry, reads as `es`
/// with that entry added.
pub proof fn lemma_parse_entries_push(buf: Seq<u8>, es: Seq<KV>, key: Seq<u8>, value: Seq<u8>, shared: nat)
    requires
        parse_entries(buf, Seq::empty()) == Some(es),
        shared <= last_key_or(es, Seq::empty()).len(),
        shared <= key.len(),
        last_key_or(es, Seq::empty()).take(shared as int) == key.take(shared as int),
        key.len() <= u64::MAX,
        value.len() <= u64::MAX,
    ensures
        parse_entries(buf + entry_bytes(shared, key.skip(shared as int), value), Seq::empty()) == Some(es.push((key, value))),
{
    let prev = last_key_or(es, Seq::empty());
    let e = entry_bytes(shared, key.skip(shared as int), value);
    lemma_parse_entries_append(buf, e, Seq::empty());
    lemma_parse_entry_bytes(key, value, prev, shared, Seq::empty());
    assert(e + Seq::<u8>::empty() =~= e);
    assert(e.skip(e.len() as int) =~= Seq::<u8>::empty());
    lemma_read_varint(shared, Seq::empty());
    assert(e.len() > 0);
    assert(parse_entries(e.skip(e.len() as int), key) == Some(Seq::<KV>::empty()));
    assert(seq![(key, value)] + Seq::<KV>::empty() =~= seq![(key, value)]);
    assert(parse_entries(e, prev) == Some(seq![(key, value)]));
    assert(es + seq![(key, value)] =~= es.push((key, value)));
}

} // verus!
