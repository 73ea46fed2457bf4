//! Checking that a sequence of records is sorted and holds no record twice:
//! each record must be strictly greater than the one before it.

use vstd::prelude::*;

use crate::record::{
    lemma_lex_le_total, lemma_lex_le_transitive, lex_le, lex_lt, record_le, views,
};

verus! {

/// Each record is strictly greater than the one before it.
pub open spec fn strictly_sorted(s: Seq<Seq<u8>>) -> bool {
    forall|i: int| 0 <= i < s.len() - 1 ==> lex_lt(#[trigger] s[i], s[i + 1])
}

/// The record at `at` is followed by one that is not greater.
pub open spec fn breaks_at(s: Seq<Seq<u8>>, at: int) -> bool {
    0 <= at < s.len() - 1 && lex_le(s[at + 1], s[at])
}

/// The first place at which the order breaks, if there is one.
pub open spec fn first_break(s: Seq<Seq<u8>>, r: Option<usize>) -> bool {
    match r {
        Some(at) => breaks_at(s, at as int) && forall|i: int| 0 <= i < at ==> !breaks_at(s, i),
        None => forall|i: int| !breaks_at(s, i),
    }
}

/// A sequence passes exactly when it is strictly sorted.
pub proof fn lemma_no_break_is_strictly_sorted(s: Seq<Seq<u8>>)
    ensures
        strictly_sorted(s) <==> forall|i: int| !breaks_at(s, i),
{
    if strictly_sorted(s) {
        assert forall|i: int| !breaks_at(s, i) by {
            if 0 <= i < s.len() - 1 {
                assert(lex_lt(s[i], s[i + 1]));
            }
        }
    }
    if forall|i: int| !breaks_at(s, i) {
        assert forall|i: int| 0 <= i < s.len() - 1 implies lex_lt(#[trigger] s[i], s[i + 1]) by {
            assert(!breaks_at(s, i));
        }
    }
}

/// In a strictly sorted sequence every record is strictly less than each
/// one after it, so the sequence is sorted and no two of its records are equal.
pub proof fn lemma_strictly_sorted_pairs(s: Seq<Seq<u8>>, i: int, j: int)
    requires
        strictly_sorted(s),
        0 <= i < j < s.len(),
    ensures
        lex_lt(s[i], s[j]),
        lex_le(s[i], s[j]),
        s[i] != s[j],
    decreases j - i,
{
    assert(lex_lt(s[j - 1], s[j]));
    lemma_lex_le_total(s[j - 1], s[j]);
    if i < j - 1 {
        lemma_strictly_sorted_pairs(s, i, j - 1);
        lemma_lex_le_total(s[i], s[j - 1]);
        lemma_lex_le_transitive(s[i], s[j - 1], s[j]);
        if lex_le(s[j], s[i]) {
            lemma_lex_le_transitive(s[j], s[i], s[j - 1]);
        }
    }
    if s[i] == s[j] {
        crate::record::lemma_lex_le_reflexive(s[i]);
    }
}

/// Looks for the first record that is followed by one that is not greater.
/// Gives its place, counted from 0, or `None` if the records are strictly
/// sorted.
pub fn first_violation(records: &Vec<Vec<u8>>) -> (r: Option<usize>)
    ensures
        first_break(views(records@), r),
        r is None <==> strictly_sorted(views(records@)),
{
    let ghost s = views(records@);
    proof {
        lemma_no_break_is_strictly_sorted(s);
    }
    let mut next: usize = 1;
    while next < records.len()
        invariant
            s == views(records@),
            1 <= next,
            forall|i: int| 0 <= i < next - 1 ==> !breaks_at(s, i),
        decreases records.len() - next,
    {
        if record_le(&records[next], &records[next - 1]) {
            assert(breaks_at(s, next - 1));
            return Some(next - 1);
        }
        next = next + 1;
    }
    None
}

/// A check that takes the records one at a time.
pub struct SortedCheck {
    last: Option<Vec<u8>>,
    seen: u64,
    taken: Ghost<Seq<Seq<u8>>>,
}

impl SortedCheck {
    /// What was taken in is strictly sorted, and the last of it is at hand.
    #[verifier::type_invariant]
    spec fn consistent(self) -> bool {
        &&& self.seen == self.taken@.len()
        &&& strictly_sorted(self.taken@)
        &&& match self.last {
            Some(record) => self.taken@.len() > 0 && record@ == self.taken@.last(),
            None => self.taken@.len() == 0,
        }
    }

    /// The records that were taken in, all of them in order.
    pub closed spec fn accepted(&self) -> Seq<Seq<u8>> {
        self.taken@
    }

    /// A check that has seen nothing.
    pub fn new() -> (check: Self)
        ensures
            check.accepted() == Seq::<Seq<u8>>::empty(),
    {
        SortedCheck { last: None, seen: 0, taken: Ghost(Seq::empty()) }
    }

    /// How many records were taken in.
    pub fn seen(&self) -> (n: u64)
        ensures
            n == self.accepted().len(),
    {
        proof {
            use_type_invariant(self);
        }
        self.seen
    }

    /// Takes the next record. If it is not greater than the one before it,
    /// the place of that earlier record is given, and the record is not
    /// taken in.
    pub fn accept(&mut self, record: Vec<u8>) -> (r: Option<u64>)
        requires
            old(self).accepted().len() < u64::MAX,
        ensures
            strictly_sorted(old(self).accepted()),
            match r {
                Some(at) => final(self).accepted() == old(self).accepted() && breaks_at(
                    old(self).accepted().push(record@),
                    at as int,
                ) && at + 1 == old(self).accepted().len(),
                None => final(self).accepted() == old(self).accepted().push(record@)
                    && strictly_sorted(final(self).accepted()),
            },
    {
        proof {
            use_type_invariant(&*self);
        }
        let ghost before = self.taken@;
        let ghost after = before.push(record@);
        let broken = match &self.last {
            Some(last) => record_le(&record, last),
            None => false,
        };
        if broken {
            Some(self.seen - 1)
        } else {
            proof {
                assert forall|i: int| 0 <= i < after.len() - 1 implies lex_lt(
                    #[trigger] after[i],
                    after[i + 1],
                ) by {
                    if i < before.len() - 1 {
                        assert(lex_lt(before[i], before[i + 1]));
                    }
                }
            }
            *self = SortedCheck { last: Some(record), seen: self.seen + 1, taken: Ghost(after) };
            None
        }
    }
}

} // verus!
