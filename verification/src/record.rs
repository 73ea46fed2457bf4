//! Records and their order. A record is one line of text, held as its bytes
//! and never looked into: all that matters is how two records compare.

use vstd::prelude::*;
use vstd::relations::{sorted_by, total_ordering};

verus! {

/// Byte-lexicographic order: the first byte in which two records differ
/// decides, and a record comes before each of its proper extensions.
pub open spec fn lex_le(a: Seq<u8>, b: Seq<u8>) -> bool
    decreases a.len(),
{
    if a.len() == 0 {
        true
    } else if b.len() == 0 {
        false
    } else if a[0] != b[0] {
        a[0] < b[0]
    } else {
        lex_le(a.drop_first(), b.drop_first())
    }
}

/// The strict order that goes with [`lex_le`].
pub open spec fn lex_lt(a: Seq<u8>, b: Seq<u8>) -> bool {
    !lex_le(b, a)
}

/// [`lex_le`] as a relation, the form in which the sequence library takes an order.
pub open spec fn byte_order() -> spec_fn(Seq<u8>, Seq<u8>) -> bool {
    |a: Seq<u8>, b: Seq<u8>| lex_le(a, b)
}

/// The records of `s` stand in non-decreasing order.
pub open spec fn sorted(s: Seq<Seq<u8>>) -> bool {
    forall|i: int, j: int| 0 <= i < j < s.len() ==> lex_le(#[trigger] s[i], #[trigger] s[j])
}

/// The records of `s`, put in non-decreasing order.
pub open spec fn sort(s: Seq<Seq<u8>>) -> Seq<Seq<u8>> {
    s.sort_by(byte_order())
}

/// What a vector of records holds, each record by its bytes.
pub open spec fn views(v: Seq<Vec<u8>>) -> Seq<Seq<u8>> {
    Seq::new(v.len(), |i: int| v[i]@)
}

/// Every record comes before or with itself.
pub proof fn lemma_lex_le_reflexive(a: Seq<u8>)
    ensures
        lex_le(a, a),
    decreases a.len(),
{
    if a.len() > 0 {
        lemma_lex_le_reflexive(a.drop_first());
    }
}

/// Of two records, one comes before or with the other.
pub proof fn lemma_lex_le_total(a: Seq<u8>, b: Seq<u8>)
    ensures
        lex_le(a, b) || lex_le(b, a),
    decreases a.len(),
{
    if a.len() > 0 && b.len() > 0 && a[0] == b[0] {
        lemma_lex_le_total(a.drop_first(), b.drop_first());
    }
}

/// Two records that come before or with each other are the same record.
pub proof fn lemma_lex_le_antisymmetric(a: Seq<u8>, b: Seq<u8>)
    requires
        lex_le(a, b),
        lex_le(b, a),
    ensures
        a == b,
    decreases a.len(),
{
    if a.len() == 0 || b.len() == 0 {
        assert(a =~= b);
    } else {
        lemma_lex_le_antisymmetric(a.drop_first(), b.drop_first());
        assert(a =~= seq![a[0]] + a.drop_first());
        assert(b =~= seq![b[0]] + b.drop_first());
    }
}

/// What comes before or with a record comes before or with all that the
/// record comes before or with.
pub proof fn lemma_lex_le_transitive(a: Seq<u8>, b: Seq<u8>, c: Seq<u8>)
    requires
        lex_le(a, b),
        lex_le(b, c),
    ensures
        lex_le(a, c),
    decreases a.len(),
{
    if a.len() > 0 && a[0] == b[0] && b[0] == c[0] {
        lemma_lex_le_transitive(a.drop_first(), b.drop_first(), c.drop_first());
    }
}

/// The order on records is total: any two records compare, and only equal
/// records compare both ways.
pub proof fn lemma_byte_order_total()
    ensures
        total_ordering(byte_order()),
{
    let r = byte_order();
    assert forall|x: Seq<u8>| #[trigger] r(x, x) by {
        lemma_lex_le_reflexive(x);
    }
    assert forall|x: Seq<u8>, y: Seq<u8>| #[trigger] r(x, y) && #[trigger] r(y, x) implies x
        == y by {
        lemma_lex_le_antisymmetric(x, y);
    }
    assert forall|x: Seq<u8>, y: Seq<u8>, z: Seq<u8>| #[trigger]
        r(x, y) && #[trigger] r(y, z) implies r(x, z) by {
        lemma_lex_le_transitive(x, y, z);
    }
    assert forall|x: Seq<u8>, y: Seq<u8>| #[trigger] r(x, y) || #[trigger] r(y, x) by {
        lemma_lex_le_total(x, y);
    }
}

/// `a` and `b` share their first `k` bytes, and there either `a` has ended
/// or its next byte is the smaller one.
pub open spec fn decided_at(a: Seq<u8>, b: Seq<u8>, k: int) -> bool {
    &&& 0 <= k <= a.len()
    &&& k <= b.len()
    &&& a.take(k) == b.take(k)
    &&& (k == a.len() || (k < b.len() && a[k] < b[k]))
}

/// `a` comes before or with `b` exactly when, after some prefix that the two
/// share, either `a` has ended or its next byte is the smaller one.
pub proof fn lemma_lex_le_first_difference(a: Seq<u8>, b: Seq<u8>)
    ensures
        lex_le(a, b) <==> exists|k: int| decided_at(a, b, k),
    decreases a.len(),
{
    if a.len() == 0 {
        assert(a.take(0) =~= b.take(0));
        assert(decided_at(a, b, 0));
    } else if b.len() == 0 {
        assert forall|k: int| !decided_at(a, b, k) by {}
    } else if a[0] != b[0] {
        if a[0] < b[0] {
            assert(a.take(0) =~= b.take(0));
            assert(decided_at(a, b, 0));
        } else {
            assert forall|k: int| !decided_at(a, b, k) by {
                if 0 < k <= a.len() && k <= b.len() && a.take(k) == b.take(k) {
                    assert(a.take(k)[0] == b.take(k)[0]);
                }
            }
        }
    } else {
        let ta = a.drop_first();
        let tb = b.drop_first();
        lemma_lex_le_first_difference(ta, tb);
        if lex_le(a, b) {
            let k = choose|k: int| decided_at(ta, tb, k);
            assert(a.take(k + 1) =~= seq![a[0]] + ta.take(k));
            assert(b.take(k + 1) =~= seq![b[0]] + tb.take(k));
            assert(decided_at(a, b, k + 1));
        } else {
            assert forall|k: int| !decided_at(a, b, k) by {
                if decided_at(a, b, k) {
                    assert(k > 0);
                    assert(ta.take(k - 1) =~= a.take(k).drop_first());
                    assert(tb.take(k - 1) =~= b.take(k).drop_first());
                    assert(decided_at(ta, tb, k - 1));
                }
            }
        }
    }
}

/// A sequence is sorted in the sense of the sequence library exactly when
/// it is [`sorted`].
pub proof fn lemma_sorted_by_byte_order(s: Seq<Seq<u8>>)
    ensures
        sorted(s) <==> sorted_by(s, byte_order()),
{
    let r = byte_order();
    if sorted(s) {
        assert forall|i: int, j: int| 0 <= i < j < s.len() implies #[trigger] r(s[i], s[j]) by {
            assert(lex_le(s[i], s[j]));
        }
    }
    if sorted_by(s, r) {
        assert forall|i: int, j: int| 0 <= i < j < s.len() implies lex_le(
            #[trigger] s[i],
            #[trigger] s[j],
        ) by {
            assert(r(s[i], s[j]));
        }
    }
}

/// Sorting gives a sorted sequence that holds each record as often as the
/// sequence that was sorted.
pub proof fn lemma_sort_sorts(s: Seq<Seq<u8>>)
    ensures
        sorted(sort(s)),
        sort(s).to_multiset() == s.to_multiset(),
        sort(s).len() == s.len(),
{
    lemma_byte_order_total();
    s.lemma_sort_by_ensures(byte_order());
    lemma_sorted_by_byte_order(sort(s));
    vstd::seq_lib::to_multiset_len(s);
    vstd::seq_lib::to_multiset_len(sort(s));
}

/// There is one way only to put given records in order: a sorted sequence
/// that holds each record as often as `s` is `sort(s)`.
pub proof fn lemma_sort_unique(s: Seq<Seq<u8>>, t: Seq<Seq<u8>>)
    requires
        sorted(t),
        t.to_multiset() == s.to_multiset(),
    ensures
        t == sort(s),
{
    lemma_byte_order_total();
    lemma_sort_sorts(s);
    lemma_sorted_by_byte_order(t);
    lemma_sorted_by_byte_order(sort(s));
    vstd::seq_lib::lemma_sorted_unique(t, sort(s), byte_order());
}

/// Whether `a` comes before or with `b`.
pub fn record_le(a: &Vec<u8>, b: &Vec<u8>) -> (r: bool)
    ensures
        r == lex_le(a@, b@),
{
    let mut i: usize = 0;
    proof {
        assert(a@.skip(0) =~= a@);
        assert(b@.skip(0) =~= b@);
    }
    while i < a.len() && i < b.len()
        invariant
            i <= a.len(),
            i <= b.len(),
            lex_le(a@, b@) == lex_le(a@.skip(i as int), b@.skip(i as int)),
        decreases a.len() - i,
    {
        if a[i] != b[i] {
            return a[i] < b[i];
        }
        proof {
            assert(a@.skip(i as int).drop_first() =~= a@.skip(i + 1));
            assert(b@.skip(i as int).drop_first() =~= b@.skip(i + 1));
        }
        i = i + 1;
    }
    i == a.len()
}

} // verus!
