//! Total order over keys.
//!
//! [`Comparator`] says how keys are ordered. [`BytewiseComparator`] orders
//! them byte by byte. A comparator's name is recorded with the data that it
//! orders.

use vstd::prelude::*;

use crate::coding;

use std::cmp::Ordering;

verus! {

/// Whether `a` comes before `b` when they are compared byte by byte.
pub open spec fn lex_less(a: Seq<u8>, b: Seq<u8>) -> bool
    decreases a.len(),
{
    if b.len() == 0 {
        false
    } else if a.len() == 0 {
        true
    } else if a[0] != b[0] {
        a[0] < b[0]
    } else {
        lex_less(a.skip(1), b.skip(1))
    }
}

/// Nothing comes before itself.
pub proof fn law_lex_irreflexive(a: Seq<u8>)
    ensures
        !lex_less(a, a),
    decreases a.len(),
{
    if a.len() > 0 {
        law_lex_irreflexive(a.skip(1));
    }
}

/// Byte order is transitive.
pub proof fn law_lex_transitive(a: Seq<u8>, b: Seq<u8>, c: Seq<u8>)
    requires
        lex_less(a, b),
        lex_less(b, c),
    ensures
        lex_less(a, c),
    decreases a.len(),
{
    if a.len() > 0 && a[0] == b[0] && b[0] == c[0] {
        law_lex_transitive(a.skip(1), b.skip(1), c.skip(1));
    }
}

/// Of two different byte strings exactly one comes first.
pub proof fn law_lex_total(a: Seq<u8>, b: Seq<u8>)
    ensures
        !(lex_less(a, b) && lex_less(b, a)),
        a == b || lex_less(a, b) || lex_less(b, a),
    decreases a.len(),
{
    if a.len() > 0 && b.len() > 0 && a[0] == b[0] {
        law_lex_total(a.skip(1), b.skip(1));
        if a.skip(1) == b.skip(1) {
            assert forall|i: int| 0 <= i < a.len() implies a[i] == b[i] by {
                if i > 0 {
                    assert(a.skip(1)[i - 1] == b.skip(1)[i - 1]);
                }
            }
            assert(a.len() == a.skip(1).len() + 1);
            assert(a =~= b);
        }
    } else if a.len() == 0 && b.len() == 0 {
        assert(a =~= b);
    }
}

/// A common prefix does not affect the order.
pub proof fn lemma_lex_prefix(prefix: Seq<u8>, a: Seq<u8>, b: Seq<u8>)
    ensures
        lex_less(prefix + a, prefix + b) == lex_less(a, b),
    decreases prefix.len(),
{
    if prefix.len() == 0 {
        assert(prefix + a =~= a);
        assert(prefix + b =~= b);
    } else {
        lemma_lex_prefix(prefix.skip(1), a, b);
        assert((prefix + a).skip(1) =~= prefix.skip(1) + a);
        assert((prefix + b).skip(1) =~= prefix.skip(1) + b);
    }
}

/// Byte strings that agree up to an index are ordered by what follows it.
proof fn lemma_lex_common(a: Seq<u8>, b: Seq<u8>, common: int)
    requires
        0 <= common <= a.len(),
        common <= b.len(),
        a.take(common) == b.take(common),
    ensures
        lex_less(a, b) == lex_less(a.skip(common), b.skip(common)),
{
    assert(a =~= a.take(common) + a.skip(common));
    assert(b =~= a.take(common) + b.skip(common));
    lemma_lex_prefix(a.take(common), a.skip(common), b.skip(common));
}

/// The first byte on which two byte strings differ decides their order; where
/// there is none, the shorter one comes first.
proof fn lemma_lex_by_difference(a: Seq<u8>, b: Seq<u8>)
    ensures
        0 <= common_len(a, b) <= a.len(),
        common_len(a, b) <= b.len(),
        lex_less(a, b) == (common_len(a, b) < b.len() && (common_len(a, b) == a.len() || a[common_len(
            a,
            b,
        )] < b[common_len(a, b)])),
        common_len(a, b) == common_len(b, a),
        common_len(a, b) < a.len() && common_len(a, b) < b.len() ==> a[common_len(a, b)]
            != b[common_len(a, b)],
    decreases a.len(),
{
    if a.len() > 0 && b.len() > 0 && a[0] == b[0] {
        lemma_lex_by_difference(a.skip(1), b.skip(1));
        let rest = common_len(a.skip(1), b.skip(1));
        if rest < a.skip(1).len() {
            assert(a.skip(1)[rest] == a[rest + 1]);
        }
        if rest < b.skip(1).len() {
            assert(b.skip(1)[rest] == b[rest + 1]);
        }
    }
}

/// Compares two byte strings byte by byte.
pub fn compare_bytes(a: &[u8], b: &[u8]) -> (order: Ordering)
    ensures
        order == Ordering::Less <==> lex_less(a@, b@),
        order == Ordering::Greater <==> lex_less(b@, a@),
        order == Ordering::Equal <==> a@ == b@,
{
    proof {
        law_lex_total(a@, b@);
        law_lex_irreflexive(a@);
        lemma_lex_by_difference(a@, b@);
        lemma_lex_by_difference(b@, a@);
    }
    let common = common_prefix(a, b);
    if common < a.len() && common < b.len() {
        if a[common] < b[common] {
            Ordering::Less
        } else {
            Ordering::Greater
        }
    } else if common < b.len() {
        Ordering::Less
    } else if common < a.len() {
        Ordering::Greater
    } else {
        Ordering::Equal
    }
}

/// How keys are ordered.
///
/// The order is a strict weak one: keys that compare as equal count as the
/// same key, whatever their bytes.
pub trait Comparator: Sized + Clone {
    /// The name under which the order is recorded.
    spec fn title(&self) -> Seq<char>;

    /// Whether the order is defined on `key`.
    spec fn admits(&self, key: Seq<u8>) -> bool;

    /// Whether `a` comes before `b`.
    spec fn less(&self, a: Seq<u8>, b: Seq<u8>) -> bool;

    /// A key, as short as the comparator finds one, between `start` and `limit`.
    spec fn separator(&self, start: Seq<u8>, limit: Seq<u8>) -> Seq<u8>;

    /// A key, as short as the comparator finds one, that is not before `key`.
    spec fn successor(&self, key: Seq<u8>) -> Seq<u8>;

    /// The separator of two keys in order is not before the first and before
    /// the second. A key that is not before `limit` is its own separator.
    proof fn separator_separates(&self, start: Seq<u8>, limit: Seq<u8>)
        requires
            self.admits(start),
            self.admits(limit),
        ensures
            self.admits(self.separator(start, limit)),
            !self.less(start, limit) ==> self.separator(start, limit) == start,
            self.less(start, limit) ==> !self.less(self.separator(start, limit), start)
                && self.less(self.separator(start, limit), limit),
    ;

    /// The successor of a key is not before it.
    proof fn successor_follows(&self, key: Seq<u8>)
        requires
            self.admits(key),
        ensures
            self.admits(self.successor(key)),
            !self.less(self.successor(key), key),
    ;

    /// No key comes before itself.
    proof fn less_irreflexive(&self, a: Seq<u8>)
        requires
            self.admits(a),
        ensures
            !self.less(a, a),
    ;

    /// A key before `b` is before all that `b` is before.
    proof fn less_transitive(&self, a: Seq<u8>, b: Seq<u8>, c: Seq<u8>)
        requires
            self.admits(a),
            self.admits(b),
            self.admits(c),
            self.less(a, b),
            self.less(b, c),
        ensures
            self.less(a, c),
    ;

    /// A key before `c` is before `b`, or `b` is before `c`.
    proof fn less_splits(&self, a: Seq<u8>, b: Seq<u8>, c: Seq<u8>)
        requires
            self.admits(a),
            self.admits(b),
            self.admits(c),
            self.less(a, c),
        ensures
            self.less(a, b) || self.less(b, c),
    ;

    /// A clone orders as the comparator that it was made from.
    proof fn clone_is_same(&self, copy: Self)
        requires
            call_ensures(Self::clone, (self,), copy),
        ensures
            copy == *self,
    ;

    fn name(&self) -> (name: &'static str)
        ensures
            name@ == self.title(),
    ;

    /// Whether the order is defined on `key`.
    fn accepts(&self, key: &[u8]) -> (answer: bool)
        ensures
            answer == self.admits(key@),
    ;

    fn compare(&self, a: &[u8], b: &[u8]) -> (order: Ordering)
        requires
            self.admits(a@),
            self.admits(b@),
        ensures
            order == Ordering::Less <==> self.less(a@, b@),
            order == Ordering::Greater <==> self.less(b@, a@),
    ;

    /// Replaces `start` by its separator from `limit`.
    fn find_shortest_separator(&self, start: &mut Vec<u8>, limit: &[u8])
        requires
            self.admits(old(start)@),
            self.admits(limit@),
        ensures
            final(start)@ == self.separator(old(start)@, limit@),
    ;

    /// Replaces `key` by its successor.
    fn find_short_successor(&self, key: &mut Vec<u8>)
        requires
            self.admits(old(key)@),
        ensures
            final(key)@ == self.successor(old(key)@),
    ;
}

/// The keys of the comparator whose length can be held in 32 bits.
pub open spec fn short_domain_of<C: Comparator>(comparator: C) -> spec_fn(Seq<u8>) -> bool {
    |key: Seq<u8>| comparator.admits(key) && key.len() < coding::two_pow_32()
}

/// Whether the length of a key can be held in 32 bits.
pub fn is_short(key: &[u8]) -> (answer: bool)
    ensures
        answer == (key@.len() < coding::two_pow_32()),
{
    key.len() as u64 <= u32::MAX as u64
}

/// Whether `a` comes before `b`.
pub fn precedes<C: Comparator>(comparator: &C, a: &[u8], b: &[u8]) -> (answer: bool)
    requires
        comparator.admits(a@),
        comparator.admits(b@),
    ensures
        answer == comparator.less(a@, b@),
{
    match comparator.compare(a, b) {
        Ordering::Less => true,
        _ => false,
    }
}

/// Whether neither of `a` and `b` comes before the other.
pub fn equivalent<C: Comparator>(comparator: &C, a: &[u8], b: &[u8]) -> (answer: bool)
    requires
        comparator.admits(a@),
        comparator.admits(b@),
    ensures
        answer == (!comparator.less(a@, b@) && !comparator.less(b@, a@)),
{
    match comparator.compare(a, b) {
        Ordering::Equal => true,
        _ => false,
    }
}

/// The order of a comparator.
pub open spec fn order_of<C: Comparator>(comparator: C) -> spec_fn(Seq<u8>, Seq<u8>) -> bool {
    |a: Seq<u8>, b: Seq<u8>| comparator.less(a, b)
}

/// The keys on which a comparator's order is defined.
pub open spec fn domain_of<C: Comparator>(comparator: C) -> spec_fn(Seq<u8>) -> bool {
    |key: Seq<u8>| comparator.admits(key)
}

/// A copy of a comparator that orders as it does.
pub fn copy_of<C: Comparator>(comparator: &C) -> (copy: C)
    ensures
        copy == *comparator,
{
    let copy = comparator.clone();
    proof {
        comparator.clone_is_same(copy);
    }
    copy
}

/// Orders keys byte by byte.
#[derive(Debug, Copy, Clone)]
pub struct BytewiseComparator;

impl Default for BytewiseComparator {
    fn default() -> (comparator: Self)
        ensures
            comparator == BytewiseComparator,
    {
        BytewiseComparator
    }
}

/// The length of the longest common prefix.
pub open spec fn common_len(a: Seq<u8>, b: Seq<u8>) -> int
    decreases a.len(),
{
    if a.len() == 0 || b.len() == 0 || a[0] != b[0] {
        0
    } else {
        1 + common_len(a.skip(1), b.skip(1))
    }
}

/// What [`BytewiseComparator`] puts in place of `start`: where the first byte
/// that differs leaves room below that of `limit`, `start` up to that byte, one
/// higher.
pub open spec fn bytewise_separator(start: Seq<u8>, limit: Seq<u8>) -> Seq<u8> {
    let common = common_len(start, limit);
    if common < start.len() && common < limit.len() && start[common] + 1 < limit[common] {
        start.take(common).push((start[common] + 1) as u8)
    } else {
        start
    }
}

/// What [`BytewiseComparator`] puts in place of `key`: the bytes up to the first
/// that is not the highest, one higher there.
pub open spec fn bytewise_successor(key: Seq<u8>) -> Seq<u8>
    decreases key.len(),
{
    if key.len() == 0 {
        key
    } else if key[0] != 0xff {
        seq![(key[0] + 1) as u8]
    } else {
        let rest = bytewise_successor(key.skip(1));
        seq![0xffu8] + rest
    }
}

/// The number of leading bytes on which `a` and `b` agree.
pub fn common_prefix(a: &[u8], b: &[u8]) -> (common: usize)
    ensures
        common == common_len(a@, b@),
        common <= a@.len(),
        common <= b@.len(),
        a@.take(common as int) == b@.take(common as int),
{
    let mut index: usize = 0;
    assert(a@.skip(0) =~= a@);
    assert(b@.skip(0) =~= b@);
    while index < a.len() && index < b.len() && a[index] == b[index]
        invariant
            index <= a@.len(),
            index <= b@.len(),
            forall|i: int| 0 <= i < index ==> a@[i] == b@[i],
            common_len(a@, b@) == index + common_len(a@.skip(index as int), b@.skip(index as int)),
        decreases a@.len() - index,
    {
        proof {
            assert(a@.skip(index as int).skip(1) =~= a@.skip(index + 1));
            assert(b@.skip(index as int).skip(1) =~= b@.skip(index + 1));
        }
        index = index + 1;
    }
    assert(a@.take(index as int) =~= b@.take(index as int));
    index
}

/// Up to the length of the longest common prefix two byte strings agree.
pub proof fn lemma_common_take(a: Seq<u8>, b: Seq<u8>)
    ensures
        0 <= common_len(a, b) <= a.len(),
        common_len(a, b) <= b.len(),
        a.take(common_len(a, b)) == b.take(common_len(a, b)),
    decreases a.len(),
{
    let common = common_len(a, b);
    if a.len() > 0 && b.len() > 0 && a[0] == b[0] {
        lemma_common_take(a.skip(1), b.skip(1));
        assert(a.take(common) =~= seq![a[0]] + a.skip(1).take(common - 1));
        assert(b.take(common) =~= seq![b[0]] + b.skip(1).take(common - 1));
    } else {
        assert(a.take(0) =~= b.take(0));
    }
}

proof fn lemma_successor_not_before(key: Seq<u8>)
    ensures
        !lex_less(bytewise_successor(key), key),
    decreases key.len(),
{
    if key.len() > 0 && key[0] == 0xff {
        lemma_successor_not_before(key.skip(1));
        assert((seq![0xffu8] + bytewise_successor(key.skip(1))).skip(1) =~= bytewise_successor(
            key.skip(1),
        ));
    }
}

impl Comparator for BytewiseComparator {
    open spec fn title(&self) -> Seq<char> {
        "pulsearc-db.BytewiseComparator"@
    }

    open spec fn admits(&self, key: Seq<u8>) -> bool {
        true
    }

    open spec fn less(&self, a: Seq<u8>, b: Seq<u8>) -> bool {
        lex_less(a, b)
    }

    open spec fn separator(&self, start: Seq<u8>, limit: Seq<u8>) -> Seq<u8> {
        bytewise_separator(start, limit)
    }

    open spec fn successor(&self, key: Seq<u8>) -> Seq<u8> {
        bytewise_successor(key)
    }

    proof fn separator_separates(&self, start: Seq<u8>, limit: Seq<u8>) {
        let common = common_len(start, limit);
        lemma_lex_by_difference(start, limit);
        law_lex_irreflexive(start);
        if common < start.len() && common < limit.len() && start[common] + 1 < limit[common] {
            let between = bytewise_separator(start, limit);
            lemma_common_take(start, limit);
            assert(between.take(common) =~= start.take(common));
            lemma_lex_common(between, start, common);
            lemma_lex_common(between, limit, common);
        }
    }

    proof fn successor_follows(&self, key: Seq<u8>) {
        lemma_successor_not_before(key);
    }

    proof fn less_irreflexive(&self, a: Seq<u8>) {
        law_lex_irreflexive(a);
    }

    proof fn less_transitive(&self, a: Seq<u8>, b: Seq<u8>, c: Seq<u8>) {
        law_lex_transitive(a, b, c);
    }

    proof fn less_splits(&self, a: Seq<u8>, b: Seq<u8>, c: Seq<u8>) {
        law_lex_total(a, b);
        if lex_less(b, a) {
            law_lex_transitive(b, a, c);
        }
    }

    proof fn clone_is_same(&self, copy: Self) {
    }

    fn name(&self) -> (name: &'static str) {
        "pulsearc-db.BytewiseComparator"
    }

    fn accepts(&self, key: &[u8]) -> (answer: bool) {
        true
    }

    fn compare(&self, a: &[u8], b: &[u8]) -> (order: Ordering)
        ensures
            order == Ordering::Equal <==> a@ == b@,
    {
        compare_bytes(a, b)
    }

    fn find_shortest_separator(&self, start: &mut Vec<u8>, limit: &[u8]) {
        let common = common_prefix(start.as_slice(), limit);
        if common < start.len() && common < limit.len() {
            let byte: u8 = start[common];
            if byte < 0xff && byte + 1 < limit[common] {
                start.truncate(common);
                start.push(byte + 1);
            }
        }
    }

    fn find_short_successor(&self, key: &mut Vec<u8>) {
        let mut index: usize = 0;
        let ghost start = key@;
        proof {
            assert(start =~= start.take(0) + start.skip(0));
            assert(start.take(0) + bytewise_successor(start) =~= bytewise_successor(start));
            assert(start.skip(0) =~= start);
        }
        while index < key.len()
            invariant
                index <= start.len(),
                key@ == start,
                start == old(key)@,
                bytewise_successor(start) == start.take(index as int) + bytewise_successor(
                    start.skip(index as int),
                ),
            decreases start.len() - index,
        {
            let byte: u8 = key[index];
            if byte != 0xff {
                key.truncate(index);
                key.push(byte + 1);
                proof {
                    assert(start.skip(index as int)[0] == byte);
                    assert(key@ =~= start.take(index as int) + bytewise_successor(start.skip(index as int)));
                }
                return;
            }
            proof {
                let rest = bytewise_successor(start.skip(index + 1));
                assert(start.skip(index as int)[0] == 0xffu8);
                assert(start.skip(index as int).skip(1) =~= start.skip(index + 1));
                assert(start.take(index as int) + (seq![0xffu8] + rest) =~= start.take(index + 1) + rest);
            }
            index = index + 1;
        }
        assert(start.take(index as int) + bytewise_successor(start.skip(index as int)) =~= start);
    }
}

/// One byte string comes before another just if it is a shorter start of it, or has the lower
/// byte where the two first differ.
pub proof fn law_lex_order(a: Seq<u8>, b: Seq<u8>)
    ensures
        lex_less(a, b) <==> exists|at: int|
            0 <= at <= a.len() && at < b.len() && #[trigger] a.take(at) == b.take(at) && (at
                == a.len() || a[at] < b[at]),
    decreases a.len(),
{
    if b.len() > 0 {
        if a.len() > 0 && a[0] == b[0] {
            let (x, y) = (a.skip(1), b.skip(1));
            law_lex_order(x, y);
            if lex_less(x, y) {
                let at = choose|at: int|
                    0 <= at <= x.len() && at < y.len() && #[trigger] x.take(at) == y.take(at) && (at
                        == x.len() || x[at] < y[at]);
                assert(a.take(at + 1) =~= seq![a[0]] + x.take(at));
                assert(b.take(at + 1) =~= seq![b[0]] + y.take(at));
                assert(a.take(at + 1) == b.take(at + 1));
            }
            if exists|at: int|
                0 <= at <= a.len() && at < b.len() && #[trigger] a.take(at) == b.take(at) && (at
                    == a.len() || a[at] < b[at]) {
                let at = choose|at: int|
                    0 <= at <= a.len() && at < b.len() && #[trigger] a.take(at) == b.take(at) && (at
                        == a.len() || a[at] < b[at]);
                assert(x.take(at - 1) =~= a.take(at).skip(1));
                assert(y.take(at - 1) =~= b.take(at).skip(1));
                assert(x.take(at - 1) == y.take(at - 1));
            }
        } else {
            assert(a.take(0) =~= b.take(0));
            if exists|at: int|
                0 <= at <= a.len() && at < b.len() && #[trigger] a.take(at) == b.take(at) && (at
                    == a.len() || a[at] < b[at]) {
                let at = choose|at: int|
                    0 <= at <= a.len() && at < b.len() && #[trigger] a.take(at) == b.take(at) && (at
                        == a.len() || a[at] < b[at]);
                if at > 0 {
                    assert(a.take(at)[0] == b.take(at)[0]);
                }
            }
        }
    }
}

/// The number of leading bytes on which two byte strings agree is the greatest: they agree on
/// so many, and behind them they differ, or one of them ends.
pub proof fn law_common_prefix_is_longest(a: Seq<u8>, b: Seq<u8>)
    ensures
        0 <= common_len(a, b) <= a.len(),
        common_len(a, b) <= b.len(),
        a.take(common_len(a, b)) == b.take(common_len(a, b)),
        common_len(a, b) < a.len() && common_len(a, b) < b.len() ==> a[common_len(a, b)]
            != b[common_len(a, b)],
{
    lemma_common_take(a, b);
    lemma_lex_by_difference(a, b);
}

/// The successor of a byte string ends with the first byte that is not the highest, one
/// higher. A byte string of highest bytes is its own successor.
pub proof fn law_successor_is_short(key: Seq<u8>, at: int)
    requires
        0 <= at <= key.len(),
        forall|i: int| 0 <= i < at ==> #[trigger] key[i] == 0xff,
    ensures
        at == key.len() ==> bytewise_successor(key) == key,
        at < key.len() && key[at] != 0xff ==> bytewise_successor(key) == key.take(at).push(
            (key[at] + 1) as u8,
        ),
    decreases key.len(),
{
    if key.len() > 0 && key[0] == 0xff && at > 0 {
        let rest = key.skip(1);
        assert forall|i: int| 0 <= i < at - 1 implies #[trigger] rest[i] == 0xff by {
            assert(key[i + 1] == 0xff);
        }
        law_successor_is_short(rest, at - 1);
        if at == key.len() {
            assert(seq![0xffu8] + rest =~= key);
        } else if key[at] != 0xff {
            assert(rest[at - 1] == key[at]);
            assert(seq![0xffu8] + rest.take(at - 1).push((key[at] + 1) as u8) =~= key.take(at).push(
                (key[at] + 1) as u8,
            ));
        }
    } else if at == 0 && key.len() > 0 && key[0] != 0xff {
        assert(seq![(key[0] + 1) as u8] =~= key.take(0).push((key[0] + 1) as u8));
    }
}

/// The separator of two byte strings ends with the first byte in which they differ, one
/// higher than in the first, if that is still below the second. Otherwise it is the first.
pub proof fn law_separator_is_short(start: Seq<u8>, limit: Seq<u8>, at: int)
    requires
        0 <= at < start.len(),
        at < limit.len(),
        start.take(at) == limit.take(at),
        start[at] != limit[at],
    ensures
        bytewise_separator(start, limit) == if start[at] + 1 < limit[at] {
            start.take(at).push((start[at] + 1) as u8)
        } else {
            start
        },
{
    law_common_prefix_is_longest(start, limit);
    let common = common_len(start, limit);
    if common < at {
        assert(start.take(at)[common] == start[common]);
        assert(limit.take(at)[common] == limit[common]);
    } else if common > at {
        assert(start.take(common)[at] == start[at]);
        assert(limit.take(common)[at] == limit[at]);
    }
    assert(common == at);
}

} // verus!
