//! Byte-string ordering and the separator helpers used by the index block.
use vstd::prelude::*;

use core::cmp::Ordering;

verus! {

/// Length of the longest common prefix of `a` and `b`.
pub open spec fn common_prefix_len(a: Seq<u8>, b: Seq<u8>) -> nat
    decreases a.len(),
{
    if a.len() == 0 || b.len() == 0 || a[0] != b[0] {
        0
    } else {
        1 + common_prefix_len(a.drop_first(), b.drop_first())
    }
}

/// Lexicographic order on byte strings: the first differing byte decides,
/// and a proper prefix sorts first.
pub open spec fn compare(a: Seq<u8>, b: Seq<u8>) -> Ordering {
    let d = common_prefix_len(a, b);
    if d == a.len() {
        if d == b.len() {
            Ordering::Equal
        } else {
            Ordering::Less
        }
    } else if d == b.len() {
        Ordering::Greater
    } else if a[d as int] < b[d as int] {
        Ordering::Less
    } else {
        Ordering::Greater
    }
}

pub open spec fn lex_lt(a: Seq<u8>, b: Seq<u8>) -> bool {
    compare(a, b) == Ordering::Less
}

pub open spec fn lex_le(a: Seq<u8>, b: Seq<u8>) -> bool {
    compare(a, b) != Ordering::Greater
}

/// The separator rule: at the first differing byte, if `a`'s byte can be
/// raised by one and stay below `b`'s, cut there and raise it; otherwise
/// append a zero byte to `a`. Equal inputs give `a` back.
pub open spec fn shortest_sep(a: Seq<u8>, b: Seq<u8>) -> Seq<u8> {
    let d = common_prefix_len(a, b);
    if a == b {
        a
    } else if d < a.len() && d < b.len() && a[d as int] < 0xff && a[d as int] + 1 < b[d as int] {
        a.take(d as int + 1).update(d as int, (a[d as int] + 1) as u8)
    } else {
        a.push(0)
    }
}

/// Index of the first byte of `a` at or after `i` that is not 0xff, or `a.len()`.
pub open spec fn first_non_ff(a: Seq<u8>, i: nat) -> nat
    decreases a.len() - i,
{
    if i >= a.len() {
        a.len()
    } else if a[i as int] != 0xff {
        i
    } else {
        first_non_ff(a, i + 1)
    }
}

/// The successor rule: raise the first byte that is not 0xff and cut after it;
/// if every byte is 0xff, append 0xff.
pub open spec fn short_succ(a: Seq<u8>) -> Seq<u8> {
    let i = first_non_ff(a, 0);
    if i < a.len() {
        a.take(i as int + 1).update(i as int, (a[i as int] + 1) as u8)
    } else {
        a.push(0xff)
    }
}

/// A common prefix of length `i` that cannot be extended is the longest one.
pub proof fn lemma_common_prefix_at(a: Seq<u8>, b: Seq<u8>, i: nat)
    requires
        i <= a.len(),
        i <= b.len(),
        a.take(i as int) == b.take(i as int),
        i == a.len() || i == b.len() || a[i as int] != b[i as int],
    ensures
        common_prefix_len(a, b) == i,
    decreases i,
{
    if i > 0 {
        assert(a[0] == a.take(i as int)[0]);
        assert(b[0] == b.take(i as int)[0]);
        let (a1, b1) = (a.drop_first(), b.drop_first());
        assert(a1.take(i - 1) =~= a.take(i as int).drop_first());
        assert(b1.take(i - 1) =~= b.take(i as int).drop_first());
        if i < a.len() && i < b.len() {
            assert(a1[i - 1] == a[i as int]);
            assert(b1[i - 1] == b[i as int]);
        }
        lemma_common_prefix_at(a1, b1, (i - 1) as nat);
    }
}

/// The longest common prefix is a common prefix.
pub proof fn lemma_common_prefix_props(a: Seq<u8>, b: Seq<u8>)
    ensures
        common_prefix_len(a, b) <= a.len(),
        common_prefix_len(a, b) <= b.len(),
        a.take(common_prefix_len(a, b) as int) == b.take(common_prefix_len(a, b) as int),
        common_prefix_len(a, b) < a.len() && common_prefix_len(a, b) < b.len() ==> a[common_prefix_len(a, b) as int] != b[common_prefix_len(a, b) as int],
    decreases a.len(),
{
    let d = common_prefix_len(a, b);
    if a.len() == 0 || b.len() == 0 || a[0] != b[0] {
        assert(a.take(0) =~= b.take(0));
    } else {
        let (a1, b1) = (a.drop_first(), b.drop_first());
        lemma_common_prefix_props(a1, b1);
        let d1 = common_prefix_len(a1, b1);
        assert(a.take(d as int) =~= seq![a[0]] + a1.take(d1 as int));
        assert(b.take(d as int) =~= seq![b[0]] + b1.take(d1 as int));
        if d < a.len() && d < b.len() {
            assert(a[d as int] == a1[d1 as int]);
            assert(b[d as int] == b1[d1 as int]);
        }
    }
}

/// Every byte string equals itself.
pub proof fn lemma_compare_refl(a: Seq<u8>)
    ensures
        compare(a, a) == Ordering::Equal,
{
    lemma_common_prefix_at(a, a, a.len());
}

/// Two strings that agree on a prefix of length `i` and differ at `i` are
/// ordered by their bytes at `i`.
pub proof fn lemma_compare_at(a: Seq<u8>, b: Seq<u8>, i: nat)
    requires
        i < a.len(),
        i < b.len(),
        a.take(i as int) == b.take(i as int),
        a[i as int] != b[i as int],
    ensures
        compare(a, b) == (if a[i as int] < b[i as int] { Ordering::Less } else { Ordering::Greater }),
{
    lemma_common_prefix_at(a, b, i);
}

/// A proper prefix sorts before the longer string.
pub proof fn lemma_compare_prefix(a: Seq<u8>, b: Seq<u8>)
    requires
        a.len() < b.len(),
        b.take(a.len() as int) == a,
    ensures
        compare(a, b) == Ordering::Less,
{
    assert(a.take(a.len() as int) =~= a);
    lemma_common_prefix_at(a, b, a.len());
}

/// Separator law: for `a < b`, the separator `s` satisfies `a <= s < b`, except
/// when `b` is `a` followed by a single zero byte, where the rule gives `s == b`.
pub proof fn lemma_shortest_sep_bounds(a: Seq<u8>, b: Seq<u8>)
    requires
        lex_lt(a, b),
        b != a.push(0),
    ensures
        lex_le(a, shortest_sep(a, b)),
        lex_lt(shortest_sep(a, b), b),
{
    let d = common_prefix_len(a, b);
    lemma_common_prefix_props(a, b);
    let s = shortest_sep(a, b);
    if a == b {
        lemma_compare_refl(a);
    } else if d < a.len() && d < b.len() && a[d as int] < 0xff && a[d as int] + 1 < b[d as int] {
        assert(s.take(d as int) =~= a.take(d as int));
        lemma_compare_at(a, s, d);
        lemma_compare_at(s, b, d);
    } else {
        assert(s.take(a.len() as int) =~= a);
        lemma_compare_prefix(a, s);
        if d < a.len() {
            assert(d < b.len());
            assert(s.take(d as int) =~= a.take(d as int));
            lemma_compare_at(s, b, d);
        } else {
            assert(d == a.len());
            assert(b.len() > a.len());
            assert(a.take(d as int) =~= a);
            if b[d as int] != 0 {
                lemma_compare_at(s, b, d);
            } else if b.len() > s.len() {
                assert(b.take(s.len() as int) =~= s);
                lemma_compare_prefix(s, b);
            } else {
                assert(b =~= a.push(0));
            }
        }
    }
}

/// The order is transitive.
pub proof fn lemma_lt_trans(a: Seq<u8>, b: Seq<u8>, c: Seq<u8>)
    requires
        lex_lt(a, b),
        lex_lt(b, c),
    ensures
        lex_lt(a, c),
{
    lemma_common_prefix_props(a, b);
    lemma_common_prefix_props(b, c);
    let d1 = common_prefix_len(a, b);
    let d2 = common_prefix_len(b, c);
    let m = if d1 < d2 { d1 } else { d2 };
    assert forall|k: int| 0 <= k < m implies a[k] == c[k] by {
        assert(a.take(d1 as int)[k] == b.take(d1 as int)[k]);
        assert(b.take(d2 as int)[k] == c.take(d2 as int)[k]);
    }
    assert(a.take(m as int) =~= c.take(m as int));
    if d1 < d2 {
        assert(b.take(d2 as int)[d1 as int] == c.take(d2 as int)[d1 as int]);
        if d1 == a.len() {
            assert(c.take(a.len() as int) =~= a);
            lemma_compare_prefix(a, c);
        } else {
            lemma_compare_at(a, c, d1);
        }
    } else if d2 < d1 {
        assert(a.take(d1 as int)[d2 as int] == b.take(d1 as int)[d2 as int]);
        lemma_compare_at(a, c, d2);
    } else {
        if d1 == a.len() {
            assert(c.take(a.len() as int) =~= a);
            lemma_compare_prefix(a, c);
        } else {
            lemma_compare_at(a, c, d1);
        }
    }
}

/// Strings that compare equal are equal.
pub proof fn lemma_compare_equal(a: Seq<u8>, b: Seq<u8>)
    requires
        compare(a, b) == Ordering::Equal,
    ensures
        a == b,
{
    lemma_common_prefix_props(a, b);
    assert(a =~= a.take(a.len() as int));
    assert(b =~= b.take(b.len() as int));
}

/// `a <= b < c` gives `a < c`.
pub proof fn lemma_le_lt_trans(a: Seq<u8>, b: Seq<u8>, c: Seq<u8>)
    requires
        lex_le(a, b),
        lex_lt(b, c),
    ensures
        lex_lt(a, c),
{
    if compare(a, b) == Ordering::Equal {
        lemma_compare_equal(a, b);
    } else {
        lemma_lt_trans(a, b, c);
    }
}

/// `a <= b <= c` gives `a <= c`.
pub proof fn lemma_le_trans(a: Seq<u8>, b: Seq<u8>, c: Seq<u8>)
    requires
        lex_le(a, b),
        lex_le(b, c),
    ensures
        lex_le(a, c),
{
    if compare(a, b) == Ordering::Equal {
        lemma_compare_equal(a, b);
    } else if compare(b, c) == Ordering::Equal {
        lemma_compare_equal(b, c);
    } else {
        lemma_lt_trans(a, b, c);
    }
}

/// For `a < b`, the separator sorts strictly after `a` and no later than `b`.
pub proof fn lemma_sep_between(a: Seq<u8>, b: Seq<u8>)
    requires
        lex_lt(a, b),
    ensures
        lex_lt(a, shortest_sep(a, b)),
        lex_le(shortest_sep(a, b), b),
{
    if b == a.push(0) {
        let s = shortest_sep(a, b);
        lemma_common_prefix_props(a, b);
        let d = common_prefix_len(a, b);
        assert(b.take(a.len() as int) =~= a);
        lemma_compare_prefix(a, b);
        lemma_common_prefix_at(a, b, a.len());
        assert(s == b);
        lemma_compare_refl(b);
    } else {
        lemma_shortest_sep_bounds(a, b);
        let s = shortest_sep(a, b);
        let d = common_prefix_len(a, b);
        lemma_common_prefix_props(a, b);
        if a == b {
            lemma_compare_refl(a);
        } else if d < a.len() && d < b.len() && a[d as int] < 0xff && a[d as int] + 1 < b[d as int] {
            assert(s.take(d as int) =~= a.take(d as int));
            lemma_compare_at(a, s, d);
        } else {
            assert(s.take(a.len() as int) =~= a);
            lemma_compare_prefix(a, s);
        }
    }
}

/// No string sorts before itself.
pub proof fn lemma_lt_irrefl(a: Seq<u8>)
    ensures
        !lex_lt(a, a),
{
    lemma_compare_refl(a);
}

/// `a < b` rules out `b < a`.
pub proof fn lemma_lt_asym(a: Seq<u8>, b: Seq<u8>)
    requires
        lex_lt(a, b),
    ensures
        !lex_lt(b, a),
{
    if lex_lt(b, a) {
        lemma_lt_trans(a, b, a);
        lemma_lt_irrefl(a);
    }
}

/// The successor of `a` sorts after `a`.
pub proof fn lemma_short_succ_greater(a: Seq<u8>)
    ensures
        lex_lt(a, short_succ(a)),
{
    let i = first_non_ff(a, 0);
    lemma_first_non_ff(a, 0);
    let s = short_succ(a);
    if i < a.len() {
        assert(s.take(i as int) =~= a.take(i as int));
        lemma_compare_at(a, s, i);
    } else {
        assert(s.take(a.len() as int) =~= a);
        lemma_compare_prefix(a, s);
    }
}

proof fn lemma_first_non_ff(a: Seq<u8>, i: nat)
    ensures
        i <= first_non_ff(a, i) <= a.len() || (i > a.len() && first_non_ff(a, i) == a.len()),
        first_non_ff(a, i) < a.len() ==> a[first_non_ff(a, i) as int] != 0xff,
        forall|j: int| i <= j < first_non_ff(a, i) ==> a[j] == 0xff,
    decreases a.len() - i,
{
    if i < a.len() && a[i as int] == 0xff {
        lemma_first_non_ff(a, i + 1);
    }
}

/// A total order over byte strings, with the two helpers that let an index
/// block store short keys in place of full ones.
pub trait Cmp {
    /// The order this comparator implements.
    spec fn order(a: Seq<u8>, b: Seq<u8>) -> Ordering;

    /// The separator this comparator picks between `a` and `b`.
    spec fn separator(a: Seq<u8>, b: Seq<u8>) -> Seq<u8>;

    /// The successor this comparator picks for `a`.
    spec fn successor(a: Seq<u8>) -> Seq<u8>;

    /// Compares two byte strings.
    fn cmp(&self, a: &[u8], b: &[u8]) -> (r: Ordering)
        ensures
            r == Self::order(a@, b@),
    ;

    /// Returns a short byte string `s` with `a <= s < b` (see the implementor).
    fn find_shortest_sep(&self, a: &[u8], b: &[u8]) -> (r: Vec<u8>)
        ensures
            r@ == Self::separator(a@, b@),
    ;

    /// Returns a short byte string that sorts after `a`.
    fn find_short_succ(&self, a: &[u8]) -> (r: Vec<u8>)
        ensures
            r@ == Self::successor(a@),
    ;

    /// A name for this order.
    fn id(&self) -> &'static str;
}

/// The bytewise lexicographic comparator.
#[derive(Clone, Copy, Debug)]
pub struct DefaultCmp;

/// Copies a byte slice into a new vector.
pub fn bytes_to_vec(a: &[u8]) -> (r: Vec<u8>)
    ensures
        r@ == a@,
{
    let mut r: Vec<u8> = Vec::with_capacity(a.len());
    let mut i: usize = 0;
    while i < a.len()
        invariant
            i <= a.len(),
            r@ == a@.take(i as int),
        decreases a.len() - i,
    {
        r.push(a[i]);
        i = i + 1;
        assert(r@ =~= a@.take(i as int));
    }
    assert(a@.take(a.len() as int) =~= a@);
    r
}

/// Length of the longest common prefix of two byte slices.
pub fn shared_prefix_len(a: &[u8], b: &[u8]) -> (r: usize)
    ensures
        r == common_prefix_len(a@, b@),
{
    let min = if a.len() < b.len() { a.len() } else { b.len() };
    let mut i: usize = 0;
    while i < min && a[i] == b[i]
        invariant
            i <= min,
            min <= a.len(),
            min <= b.len(),
            min == a.len() || min == b.len(),
            a@.take(i as int) == b@.take(i as int),
        decreases min - i,
    {
        assert(a@.take(i + 1) =~= a@.take(i as int).push(a@[i as int]));
        assert(b@.take(i + 1) =~= b@.take(i as int).push(b@[i as int]));
        i = i + 1;
    }
    proof {
        lemma_common_prefix_at(a@, b@, i as nat);
    }
    i
}

impl Cmp for DefaultCmp {
    open spec fn order(a: Seq<u8>, b: Seq<u8>) -> Ordering {
        compare(a, b)
    }

    open spec fn separator(a: Seq<u8>, b: Seq<u8>) -> Seq<u8> {
        shortest_sep(a, b)
    }

    open spec fn successor(a: Seq<u8>) -> Seq<u8> {
        short_succ(a)
    }

    fn cmp(&self, a: &[u8], b: &[u8]) -> (r: Ordering) {
        compare_bytes(a, b)
    }

    fn find_shortest_sep(&self, a: &[u8], b: &[u8]) -> (r: Vec<u8>) {
        shortest_separator(a, b)
    }

    fn find_short_succ(&self, a: &[u8]) -> (r: Vec<u8>) {
        short_successor(a)
    }

    fn id(&self) -> &'static str {
        "leveldb.BytewiseComparator"
    }
}

/// Compares two byte strings lexicographically.
pub fn compare_bytes(a: &[u8], b: &[u8]) -> (r: Ordering)
    ensures
        r == compare(a@, b@),
{
    let d = shared_prefix_len(a, b);
    proof {
        lemma_common_prefix_props(a@, b@);
    }
    if d == a.len() {
        if d == b.len() {
            Ordering::Equal
        } else {
            Ordering::Less
        }
    } else if d == b.len() {
        Ordering::Greater
    } else if a[d] < b[d] {
        Ordering::Less
    } else {
        Ordering::Greater
    }
}

/// The separator between `a` and `b` that the bytewise order picks.
pub fn shortest_separator(a: &[u8], b: &[u8]) -> (r: Vec<u8>)
    ensures
        r@ == shortest_sep(a@, b@),
        r@.len() <= a@.len() + 1,
{
    let d = shared_prefix_len(a, b);
    proof {
        lemma_common_prefix_props(a@, b@);
    }
    if d == a.len() && d == b.len() {
        proof {
            assert(a@.take(d as int) =~= a@);
            assert(b@.take(d as int) =~= b@);
        }
        return bytes_to_vec(a);
    }
    proof {
        if a@ == b@ {
            assert(a@.take(d as int) =~= a@);
        }
    }
    if d < a.len() && d < b.len() && a[d] < 0xff && a[d] + 1 < b[d] {
        let mut sep = bytes_to_vec(&a[0..d + 1]);
        sep.set(d, a[d] + 1);
        assert(sep@ =~= a@.take(d + 1).update(d as int, (a@[d as int] + 1) as u8));
        return sep;
    }
    let mut sep = bytes_to_vec(a);
    sep.push(0);
    sep
}

/// The successor of `a` that the bytewise order picks.
pub fn short_successor(a: &[u8]) -> (r: Vec<u8>)
    ensures
        r@ == short_succ(a@),
        r@.len() <= a@.len() + 1,
{
    let mut i: usize = 0;
    while i < a.len()
        invariant
            i <= a.len(),
            first_non_ff(a@, i as nat) == first_non_ff(a@, 0),
        decreases a.len() - i,
    {
        if a[i] != 0xff {
            let mut r = bytes_to_vec(&a[0..i + 1]);
            r.set(i, a[i] + 1);
            assert(r@ =~= a@.take(i + 1).update(i as int, (a@[i as int] + 1) as u8));
            return r;
        }
        i = i + 1;
    }
    let mut r = bytes_to_vec(a);
    r.push(0xff);
    r
}


} // verus!
