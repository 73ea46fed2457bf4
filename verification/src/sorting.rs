//! Sorting a batch of records in memory, by merging.

use vstd::prelude::*;
use vstd::seq_lib::{lemma_multiset_commutative, to_multiset_build};

use crate::record::{
    lemma_lex_le_total, lemma_lex_le_transitive, lemma_sort_unique, lex_le, record_le, sort,
    sorted, views,
};

verus! {

/// A vector with one more record holds what it held, and that record.
pub proof fn lemma_views_push(v: Seq<Vec<u8>>, record: Vec<u8>)
    ensures
        views(v.push(record)) == views(v).push(record@),
{
    assert(views(v.push(record)) =~= views(v).push(record@));
}

/// Two vectors, one after the other, hold what the two hold.
pub proof fn lemma_views_add(a: Seq<Vec<u8>>, b: Seq<Vec<u8>>)
    ensures
        views(a + b) == views(a) + views(b),
{
    assert(views(a + b) =~= views(a) + views(b));
}

/// Merges two sorted batches into one.
fn merge(left: Vec<Vec<u8>>, right: Vec<Vec<u8>>) -> (out: Vec<Vec<u8>>)
    requires
        sorted(views(left@)),
        sorted(views(right@)),
    ensures
        sorted(views(out@)),
        views(out@).to_multiset() == views(left@).to_multiset().add(views(right@).to_multiset()),
{
    let mut left = left;
    let mut right = right;
    let ghost l0 = views(left@);
    let ghost r0 = views(right@);
    let mut out: Vec<Vec<u8>> = Vec::new();
    let mut i: usize = 0;
    let mut j: usize = 0;
    proof {
        assert(views(out@) =~= l0.take(0) + r0.take(0));
        lemma_multiset_commutative(l0.take(0), r0.take(0));
    }
    while i < left.len() || j < right.len()
        invariant
            left.len() == l0.len(),
            right.len() == r0.len(),
            i <= left.len(),
            j <= right.len(),
            forall|k: int| i <= k < left.len() ==> (#[trigger] left[k])@ == l0[k],
            forall|k: int| j <= k < right.len() ==> (#[trigger] right[k])@ == r0[k],
            sorted(l0),
            sorted(r0),
            sorted(views(out@)),
            views(out@).to_multiset() == l0.take(i as int).to_multiset().add(
                r0.take(j as int).to_multiset(),
            ),
            forall|k: int, m: int|
                0 <= k < out.len() && i <= m < l0.len() ==> lex_le(
                    #[trigger] views(out@)[k],
                    #[trigger] l0[m],
                ),
            forall|k: int, m: int|
                0 <= k < out.len() && j <= m < r0.len() ==> lex_le(
                    #[trigger] views(out@)[k],
                    #[trigger] r0[m],
                ),
        decreases (left.len() - i) + (right.len() - j),
    {
        let from_left = if j >= right.len() {
            true
        } else if i >= left.len() {
            false
        } else {
            record_le(&left[i], &right[j])
        };
        let ghost before = views(out@);
        proof {
            if i < left.len() && j < right.len() {
                assert(left[i as int]@ == l0[i as int] && right[j as int]@ == r0[j as int]);
                assert(from_left == lex_le(l0[i as int], r0[j as int]));
            }
        }
        let mut record: Vec<u8> = Vec::new();
        if from_left {
            left.set_and_swap(i, &mut record);
            proof {
                assert(l0.take(i + 1) =~= l0.take(i as int).push(l0[i as int]));
                to_multiset_build(l0.take(i as int), l0[i as int]);
                assert forall|m: int| j <= m < r0.len() implies lex_le(
                    l0[i as int],
                    #[trigger] r0[m],
                ) by {
                    if m > j {
                        lemma_lex_le_transitive(l0[i as int], r0[j as int], r0[m]);
                    }
                }
            }
            i = i + 1;
        } else {
            right.set_and_swap(j, &mut record);
            proof {
                assert(r0.take(j + 1) =~= r0.take(j as int).push(r0[j as int]));
                to_multiset_build(r0.take(j as int), r0[j as int]);
                assert forall|m: int| i <= m < l0.len() implies lex_le(
                    r0[j as int],
                    #[trigger] l0[m],
                ) by {
                    lemma_lex_le_total(l0[i as int], r0[j as int]);
                    if m > i {
                        lemma_lex_le_transitive(r0[j as int], l0[i as int], l0[m]);
                    }
                }
            }
            j = j + 1;
        }
        proof {
            lemma_views_push(out@, record);
            to_multiset_build(before, record@);
        }
        out.push(record);
        proof {
            let after = views(out@);
            assert(after == before.push(record@));
            assert forall|a: int, b: int| 0 <= a < b < after.len() implies lex_le(
                #[trigger] after[a],
                #[trigger] after[b],
            ) by {
                if b < before.len() {
                    assert(lex_le(before[a], before[b]));
                }
            }
        }
    }
    proof {
        assert(l0.take(i as int) =~= l0);
        assert(r0.take(j as int) =~= r0);
    }
    out
}

/// Sorts a batch by halving it, sorting the halves and merging them.
fn merge_sort(records: Vec<Vec<u8>>) -> (out: Vec<Vec<u8>>)
    ensures
        sorted(views(out@)),
        views(out@).to_multiset() == views(records@).to_multiset(),
    decreases records.len(),
{
    let mut left = records;
    if left.len() <= 1 {
        return left;
    }
    let mid = left.len() / 2;
    let right = left.split_off(mid);
    proof {
        assert(records@ =~= left@ + right@);
        lemma_views_add(left@, right@);
        lemma_multiset_commutative(views(left@), views(right@));
    }
    let left_sorted = merge_sort(left);
    let right_sorted = merge_sort(right);
    merge(left_sorted, right_sorted)
}

/// Puts the records of a batch in non-decreasing byte order. Equal records
/// are not told apart, so the result is the one sorted arrangement there is.
pub fn sort_records(records: Vec<Vec<u8>>) -> (out: Vec<Vec<u8>>)
    ensures
        views(out@) == sort(views(records@)),
{
    let out = merge_sort(records);
    proof {
        lemma_sort_unique(views(records@), views(out@));
    }
    out
}

} // verus!
