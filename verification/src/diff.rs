//! Splitting the records of two inputs into those that only the first
//! holds, those that only the second holds, and those that both hold, by
//! walking the two inputs side by side. For inputs that are sorted and hold
//! no record twice the three parts are the two differences and the
//! intersection of the inputs.

use vstd::prelude::*;
use vstd::slice::slice_to_vec;

use crate::record::{
    lemma_lex_le_antisymmetric, lemma_lex_le_reflexive, lemma_lex_le_total,
    lemma_lex_le_transitive, lex_le, lex_lt, record_le, sorted, views,
};
use crate::sorting::{lemma_views_push, sort_records};
use crate::validate::{lemma_strictly_sorted_pairs, strictly_sorted};

verus! {

/// What to do with the records at which the two inputs stand.
#[derive(Clone, Copy, Debug, PartialEq, Eq)]
pub enum DiffStep {
    /// Both inputs have ended.
    Done,
    /// The record of the first input is in the first only; the first moves on.
    FirstOnly,
    /// The record of the second input is in the second only; the second moves on.
    SecondOnly,
    /// The two records are equal; both inputs move on.
    Both,
}

/// The step for two inputs that stand at the given records, `None` standing
/// for an input that has ended.
pub open spec fn step_of(a: Option<Seq<u8>>, b: Option<Seq<u8>>) -> DiffStep {
    match (a, b) {
        (None, None) => DiffStep::Done,
        (Some(_), None) => DiffStep::FirstOnly,
        (None, Some(_)) => DiffStep::SecondOnly,
        (Some(x), Some(y)) => if x == y {
            DiffStep::Both
        } else if lex_le(x, y) {
            DiffStep::FirstOnly
        } else {
            DiffStep::SecondOnly
        },
    }
}

/// The record at which an input stands.
pub open spec fn front(s: Seq<Seq<u8>>) -> Option<Seq<u8>> {
    if s.len() > 0 {
        Some(s[0])
    } else {
        None
    }
}

/// What a record that may be absent holds.
pub open spec fn held(record: Option<&Vec<u8>>) -> Option<Seq<u8>> {
    match record {
        Some(r) => Some(r@),
        None => None,
    }
}

/// The three parts into which two inputs are split.
pub struct Parts {
    pub first_only: Seq<Seq<u8>>,
    pub second_only: Seq<Seq<u8>>,
    pub both: Seq<Seq<u8>>,
}

/// The parts that the walk along `a` and `b` gives.
pub open spec fn parts(a: Seq<Seq<u8>>, b: Seq<Seq<u8>>) -> Parts
    decreases a.len() + b.len(),
{
    match step_of(front(a), front(b)) {
        DiffStep::Done => Parts {
            first_only: Seq::empty(),
            second_only: Seq::empty(),
            both: Seq::empty(),
        },
        DiffStep::FirstOnly => {
            let rest = parts(a.drop_first(), b);
            Parts { first_only: seq![a[0]] + rest.first_only, ..rest }
        },
        DiffStep::SecondOnly => {
            let rest = parts(a, b.drop_first());
            Parts { second_only: seq![b[0]] + rest.second_only, ..rest }
        },
        DiffStep::Both => {
            let rest = parts(a.drop_first(), b.drop_first());
            Parts { both: seq![a[0]] + rest.both, ..rest }
        },
    }
}

/// Decides the next step of the walk from the records at which the two
/// inputs stand.
pub fn diff_step(a: Option<&Vec<u8>>, b: Option<&Vec<u8>>) -> (step: DiffStep)
    ensures
        step == step_of(held(a), held(b)),
{
    match (a, b) {
        (None, None) => DiffStep::Done,
        (Some(_), None) => DiffStep::FirstOnly,
        (None, Some(_)) => DiffStep::SecondOnly,
        (Some(x), Some(y)) => {
            let below = record_le(x, y);
            let above = record_le(y, x);
            proof {
                if below && above {
                    lemma_lex_le_antisymmetric(x@, y@);
                }
                if x@ == y@ {
                    lemma_lex_le_reflexive(x@);
                }
            }
            if below && above {
                DiffStep::Both
            } else if below {
                DiffStep::FirstOnly
            } else {
                DiffStep::SecondOnly
            }
        },
    }
}

/// The three parts, as vectors of records.
#[derive(Debug, PartialEq, Eq)]
pub struct Diff {
    pub first_only: Vec<Vec<u8>>,
    pub second_only: Vec<Vec<u8>>,
    pub both: Vec<Vec<u8>>,
}

impl Diff {
    /// What the three vectors hold.
    pub open spec fn parts(&self) -> Parts {
        Parts {
            first_only: views(self.first_only@),
            second_only: views(self.second_only@),
            both: views(self.both@),
        }
    }
}

/// The parts of the walk, with what was found before put in front.
spec fn joined(found: Parts, rest: Parts) -> Parts {
    Parts {
        first_only: found.first_only + rest.first_only,
        second_only: found.second_only + rest.second_only,
        both: found.both + rest.both,
    }
}

/// Walks along two inputs and splits their records into three parts.
pub fn diff_sorted(a: &Vec<Vec<u8>>, b: &Vec<Vec<u8>>) -> (d: Diff)
    ensures
        d.parts() == parts(views(a@), views(b@)),
{
    let ghost va = views(a@);
    let ghost vb = views(b@);
    let mut d = Diff { first_only: Vec::new(), second_only: Vec::new(), both: Vec::new() };
    let mut i: usize = 0;
    let mut j: usize = 0;
    proof {
        assert(va.skip(0) =~= va);
        assert(vb.skip(0) =~= vb);
        let rest = parts(va, vb);
        assert(joined(d.parts(), rest).first_only =~= rest.first_only);
        assert(joined(d.parts(), rest).second_only =~= rest.second_only);
        assert(joined(d.parts(), rest).both =~= rest.both);
    }
    loop
        invariant
            va == views(a@),
            vb == views(b@),
            i <= a.len(),
            j <= b.len(),
            parts(va, vb) == joined(d.parts(), parts(va.skip(i as int), vb.skip(j as int))),
        ensures
            d.parts() == parts(va, vb),
        decreases (a.len() - i) + (b.len() - j),
    {
        let ghost ra = va.skip(i as int);
        let ghost rb = vb.skip(j as int);
        let ghost found = d.parts();
        let x = if i < a.len() {
            Some(&a[i])
        } else {
            None
        };
        let y = if j < b.len() {
            Some(&b[j])
        } else {
            None
        };
        proof {
            assert(held(x) == front(ra));
            assert(held(y) == front(rb));
            if i < a.len() {
                assert(ra.drop_first() =~= va.skip(i + 1));
            }
            if j < b.len() {
                assert(rb.drop_first() =~= vb.skip(j + 1));
            }
        }
        match diff_step(x, y) {
            DiffStep::Done => {
                proof {
                    let rest = parts(ra, rb);
                    assert(joined(found, rest).first_only =~= found.first_only);
                    assert(joined(found, rest).second_only =~= found.second_only);
                    assert(joined(found, rest).both =~= found.both);
                }
                break;
            },
            DiffStep::FirstOnly => {
                let record = slice_to_vec(a[i].as_slice());
                proof {
                    lemma_views_push(d.first_only@, record);
                    let rest = parts(va.skip(i + 1), rb);
                    assert(found.first_only + (seq![ra[0]] + rest.first_only)
                        =~= found.first_only.push(ra[0]) + rest.first_only);
                }
                d.first_only.push(record);
                i = i + 1;
            },
            DiffStep::SecondOnly => {
                let record = slice_to_vec(b[j].as_slice());
                proof {
                    lemma_views_push(d.second_only@, record);
                    let rest = parts(ra, vb.skip(j + 1));
                    assert(found.second_only + (seq![rb[0]] + rest.second_only)
                        =~= found.second_only.push(rb[0]) + rest.second_only);
                }
                d.second_only.push(record);
                j = j + 1;
            },
            DiffStep::Both => {
                let record = slice_to_vec(a[i].as_slice());
                proof {
                    lemma_views_push(d.both@, record);
                    let rest = parts(va.skip(i + 1), vb.skip(j + 1));
                    assert(found.both + (seq![ra[0]] + rest.both) =~= found.both.push(ra[0])
                        + rest.both);
                }
                d.both.push(record);
                i = i + 1;
                j = j + 1;
            },
        }
    }
    d
}

/// Every record of `s` is strictly greater than `x`.
pub open spec fn all_above(x: Seq<u8>, s: Seq<Seq<u8>>) -> bool {
    forall|k: int| 0 <= k < s.len() ==> lex_lt(x, #[trigger] s[k])
}

/// The records of a strictly sorted sequence after the first are strictly
/// sorted and all greater than the first.
proof fn lemma_tail_of_strictly_sorted(s: Seq<Seq<u8>>)
    requires
        strictly_sorted(s),
        s.len() > 0,
    ensures
        strictly_sorted(s.drop_first()),
        all_above(s[0], s.drop_first()),
        !s.drop_first().contains(s[0]),
{
    let t = s.drop_first();
    assert forall|i: int| 0 <= i < t.len() - 1 implies lex_lt(#[trigger] t[i], t[i + 1]) by {
        assert(lex_lt(s[i + 1], s[i + 2]));
    }
    assert forall|k: int| 0 <= k < t.len() implies lex_lt(s[0], #[trigger] t[k]) by {
        lemma_strictly_sorted_pairs(s, 0, k + 1);
    }
    if t.contains(s[0]) {
        let k = choose|k: int| 0 <= k < t.len() && t[k] == s[0];
        assert(lex_lt(s[0], t[k]));
        lemma_lex_le_reflexive(s[0]);
    }
}

/// A record that is less than the first of a strictly sorted sequence, or
/// that meets an empty one, is less than all of it and is not in it.
proof fn lemma_below_front(x: Seq<u8>, s: Seq<Seq<u8>>)
    requires
        strictly_sorted(s),
        s.len() > 0 ==> lex_lt(x, s[0]),
    ensures
        all_above(x, s),
        !s.contains(x),
{
    assert forall|k: int| 0 <= k < s.len() implies lex_lt(x, #[trigger] s[k]) by {
        if k > 0 {
            lemma_strictly_sorted_pairs(s, 0, k);
            lemma_lex_le_total(x, s[0]);
            if lex_le(s[k], x) {
                lemma_lex_le_transitive(s[k], x, s[0]);
            }
        }
    }
    if s.contains(x) {
        let k = choose|k: int| 0 <= k < s.len() && s[k] == x;
        assert(lex_lt(x, s[k]));
        lemma_lex_le_reflexive(x);
    }
}

/// A record put before a strictly sorted sequence of greater records gives
/// a strictly sorted sequence.
proof fn lemma_put_before(x: Seq<u8>, s: Seq<Seq<u8>>)
    requires
        strictly_sorted(s),
        all_above(x, s),
    ensures
        strictly_sorted(seq![x] + s),
{
    let t = seq![x] + s;
    assert forall|i: int| 0 <= i < t.len() - 1 implies lex_lt(#[trigger] t[i], t[i + 1]) by {
        if i == 0 {
            assert(lex_lt(x, s[0]));
        } else {
            assert(lex_lt(s[i - 1], s[i]));
        }
    }
}

/// What is said of the parts of two inputs that are sorted and hold no
/// record twice: each part is sorted and holds no record twice, and the
/// parts hold the records of the first input only, of the second only, and
/// of both.
pub open spec fn splits(p: Parts, a: Seq<Seq<u8>>, b: Seq<Seq<u8>>) -> bool {
    &&& strictly_sorted(p.first_only)
    &&& strictly_sorted(p.second_only)
    &&& strictly_sorted(p.both)
    &&& forall|x: Seq<u8>| #[trigger] p.first_only.contains(x) <==> a.contains(x) && !b.contains(x)
    &&& forall|x: Seq<u8>| #[trigger]
        p.second_only.contains(x) <==> b.contains(x) && !a.contains(x)
    &&& forall|x: Seq<u8>| #[trigger] p.both.contains(x) <==> a.contains(x) && b.contains(x)
}

/// Membership in a sequence with a record put before it.
proof fn lemma_contains_cons(x: Seq<u8>, s: Seq<Seq<u8>>, y: Seq<u8>)
    ensures
        (seq![x] + s).contains(y) <==> y == x || s.contains(y),
{
    let t = seq![x] + s;
    if t.contains(y) {
        let k = choose|k: int| 0 <= k < t.len() && t[k] == y;
        if k > 0 {
            assert(s[k - 1] == y);
        }
    }
    if y == x {
        assert(t[0] == y);
    }
    if s.contains(y) {
        let k = choose|k: int| 0 <= k < s.len() && s[k] == y;
        assert(t[k + 1] == y);
    }
}

/// Membership in a sequence, by its first record and the rest.
proof fn lemma_contains_front(s: Seq<Seq<u8>>, y: Seq<u8>)
    requires
        s.len() > 0,
    ensures
        s.contains(y) <==> y == s[0] || s.drop_first().contains(y),
{
    assert(s =~= seq![s[0]] + s.drop_first());
    lemma_contains_cons(s[0], s.drop_first(), y);
}

/// For two inputs that are sorted and hold no record twice, the walk gives
/// the two differences and the intersection, each sorted and without a
/// record twice.
pub proof fn lemma_parts_of_sorted(a: Seq<Seq<u8>>, b: Seq<Seq<u8>>)
    requires
        strictly_sorted(a),
        strictly_sorted(b),
    ensures
        splits(parts(a, b), a, b),
    decreases a.len() + b.len(),
{
    let p = parts(a, b);
    match step_of(front(a), front(b)) {
        DiffStep::Done => {
            assert forall|x: Seq<u8>| !a.contains(x) && !b.contains(x) by {}
            assert forall|x: Seq<u8>|
                !p.first_only.contains(x) && !p.second_only.contains(x) && !p.both.contains(x) by {}
        },
        DiffStep::FirstOnly => {
            let ta = a.drop_first();
            let rest = parts(ta, b);
            lemma_tail_of_strictly_sorted(a);
            lemma_parts_of_sorted(ta, b);
            if b.len() > 0 {
                lemma_lex_le_total(a[0], b[0]);
                if lex_le(b[0], a[0]) {
                    lemma_lex_le_antisymmetric(a[0], b[0]);
                }
            }
            lemma_below_front(a[0], b);
            assert(all_above(a[0], rest.first_only)) by {
                assert forall|k: int| 0 <= k < rest.first_only.len() implies lex_lt(
                    a[0],
                    #[trigger] rest.first_only[k],
                ) by {
                    let y = rest.first_only[k];
                    assert(rest.first_only.contains(y));
                    assert(ta.contains(y));
                    let m = choose|m: int| 0 <= m < ta.len() && ta[m] == y;
                    assert(lex_lt(a[0], ta[m]));
                }
            }
            lemma_put_before(a[0], rest.first_only);
            assert forall|x: Seq<u8>| #[trigger]
                p.first_only.contains(x) <==> a.contains(x) && !b.contains(x) by {
                lemma_contains_cons(a[0], rest.first_only, x);
                lemma_contains_front(a, x);
                assert(rest.first_only.contains(x) <==> ta.contains(x) && !b.contains(x));
            }
            assert forall|x: Seq<u8>| #[trigger]
                p.second_only.contains(x) <==> b.contains(x) && !a.contains(x) by {
                lemma_contains_front(a, x);
                assert(rest.second_only.contains(x) <==> b.contains(x) && !ta.contains(x));
            }
            assert forall|x: Seq<u8>| #[trigger]
                p.both.contains(x) <==> a.contains(x) && b.contains(x) by {
                lemma_contains_front(a, x);
                assert(rest.both.contains(x) <==> ta.contains(x) && b.contains(x));
            }
        },
        DiffStep::SecondOnly => {
            let tb = b.drop_first();
            let rest = parts(a, tb);
            lemma_tail_of_strictly_sorted(b);
            lemma_parts_of_sorted(a, tb);
            lemma_below_front(b[0], a);
            assert(all_above(b[0], rest.second_only)) by {
                assert forall|k: int| 0 <= k < rest.second_only.len() implies lex_lt(
                    b[0],
                    #[trigger] rest.second_only[k],
                ) by {
                    let y = rest.second_only[k];
                    assert(rest.second_only.contains(y));
                    assert(tb.contains(y));
                    let m = choose|m: int| 0 <= m < tb.len() && tb[m] == y;
                    assert(lex_lt(b[0], tb[m]));
                }
            }
            lemma_put_before(b[0], rest.second_only);
            assert forall|x: Seq<u8>| #[trigger]
                p.first_only.contains(x) <==> a.contains(x) && !b.contains(x) by {
                lemma_contains_front(b, x);
                assert(rest.first_only.contains(x) <==> a.contains(x) && !tb.contains(x));
            }
            assert forall|x: Seq<u8>| #[trigger]
                p.second_only.contains(x) <==> b.contains(x) && !a.contains(x) by {
                lemma_contains_cons(b[0], rest.second_only, x);
                lemma_contains_front(b, x);
                assert(rest.second_only.contains(x) <==> tb.contains(x) && !a.contains(x));
            }
            assert forall|x: Seq<u8>| #[trigger]
                p.both.contains(x) <==> a.contains(x) && b.contains(x) by {
                lemma_contains_front(b, x);
                assert(rest.both.contains(x) <==> a.contains(x) && tb.contains(x));
            }
        },
        DiffStep::Both => {
            let ta = a.drop_first();
            let tb = b.drop_first();
            let rest = parts(ta, tb);
            lemma_tail_of_strictly_sorted(a);
            lemma_tail_of_strictly_sorted(b);
            lemma_parts_of_sorted(ta, tb);
            assert(all_above(a[0], rest.both)) by {
                assert forall|k: int| 0 <= k < rest.both.len() implies lex_lt(
                    a[0],
                    #[trigger] rest.both[k],
                ) by {
                    let y = rest.both[k];
                    assert(rest.both.contains(y));
                    assert(ta.contains(y));
                    let m = choose|m: int| 0 <= m < ta.len() && ta[m] == y;
                    assert(lex_lt(a[0], ta[m]));
                }
            }
            lemma_put_before(a[0], rest.both);
            assert forall|x: Seq<u8>| #[trigger]
                p.first_only.contains(x) <==> a.contains(x) && !b.contains(x) by {
                lemma_contains_front(a, x);
                lemma_contains_front(b, x);
                assert(rest.first_only.contains(x) <==> ta.contains(x) && !tb.contains(x));
            }
            assert forall|x: Seq<u8>| #[trigger]
                p.second_only.contains(x) <==> b.contains(x) && !a.contains(x) by {
                lemma_contains_front(a, x);
                lemma_contains_front(b, x);
                assert(rest.second_only.contains(x) <==> tb.contains(x) && !ta.contains(x));
            }
            assert forall|x: Seq<u8>| #[trigger]
                p.both.contains(x) <==> a.contains(x) && b.contains(x) by {
                lemma_contains_cons(a[0], rest.both, x);
                lemma_contains_front(a, x);
                lemma_contains_front(b, x);
                assert(rest.both.contains(x) <==> ta.contains(x) && tb.contains(x));
            }
        },
    }
}

/// Sorted records hold the same records before and after sorting.
proof fn lemma_sort_keeps_members(s: Seq<Seq<u8>>, x: Seq<u8>)
    ensures
        crate::record::sort(s).contains(x) <==> s.contains(x),
{
    crate::record::lemma_sort_sorts(s);
    vstd::seq_lib::to_multiset_contains(s, x);
    vstd::seq_lib::to_multiset_contains(crate::record::sort(s), x);
}

/// Drops from sorted records each one that equals the one before it.
fn distinct(records: Vec<Vec<u8>>) -> (out: Vec<Vec<u8>>)
    requires
        sorted(views(records@)),
    ensures
        strictly_sorted(views(out@)),
        forall|x: Seq<u8>| #[trigger] views(out@).contains(x) <==> views(records@).contains(x),
{
    let mut records = records;
    let ghost s = views(records@);
    let mut out: Vec<Vec<u8>> = Vec::new();
    let mut i: usize = 0;
    while i < records.len()
        invariant
            records.len() == s.len(),
            i <= records.len(),
            sorted(s),
            forall|k: int| i <= k < records.len() ==> (#[trigger] records[k])@ == s[k],
            strictly_sorted(views(out@)),
            forall|x: Seq<u8>| #[trigger] views(out@).contains(x) <==> s.take(i as int).contains(x),
            out.len() > 0 ==> i > 0 && views(out@).last() == s[i - 1],
            out.len() == 0 ==> i == 0,
        decreases records.len() - i,
    {
        let mut record: Vec<u8> = Vec::new();
        records.set_and_swap(i, &mut record);
        let ghost kept = views(out@);
        let ghost seen = s.take(i as int);
        let again = out.len() > 0 && record_le(&record, &out[out.len() - 1]);
        proof {
            assert(record@ == s[i as int]);
            assert(s.take(i + 1) =~= seen.push(s[i as int]));
            assert forall|x: Seq<u8>| #[trigger]
                s.take(i + 1).contains(x) <==> seen.contains(x) || x == s[i as int] by {
                if seen.contains(x) {
                    let k = choose|k: int| 0 <= k < seen.len() && seen[k] == x;
                    assert(s.take(i + 1)[k] == x);
                }
                if x == s[i as int] {
                    assert(s.take(i + 1)[i as int] == x);
                }
            }
            if out.len() > 0 {
                assert(kept.last() == out@[out.len() - 1]@);
                if i > 0 && i - 1 < i {
                    assert(lex_le(s[i - 1], s[i as int]));
                }
            }
        }
        if again {
            proof {
                lemma_lex_le_antisymmetric(s[i - 1], s[i as int]);
                assert(kept.contains(kept.last())) by {
                    assert(kept[kept.len() - 1] == kept.last());
                }
                assert forall|x: Seq<u8>| #[trigger]
                    kept.contains(x) <==> s.take(i + 1).contains(x) by {
                    assert(kept.contains(x) <==> seen.contains(x));
                }
            }
        } else {
            proof {
                lemma_views_push(out@, record);
                let more = kept.push(record@);
                assert forall|k: int| 0 <= k < more.len() - 1 implies lex_lt(
                    #[trigger] more[k],
                    more[k + 1],
                ) by {
                    if k < kept.len() - 1 {
                        assert(lex_lt(kept[k], kept[k + 1]));
                    }
                }
                assert forall|x: Seq<u8>| #[trigger]
                    more.contains(x) <==> kept.contains(x) || x == record@ by {
                    if kept.contains(x) {
                        let k = choose|k: int| 0 <= k < kept.len() && kept[k] == x;
                        assert(more[k] == x);
                    }
                    if x == record@ {
                        assert(more[more.len() - 1] == x);
                    }
                    if more.contains(x) {
                        let k = choose|k: int| 0 <= k < more.len() && more[k] == x;
                        if k < kept.len() {
                            assert(kept[k] == x);
                        }
                    }
                    assert(kept.contains(x) <==> seen.contains(x));
                    assert(s.take(i + 1).contains(x) <==> seen.contains(x) || x == s[i as int]);
                }
            }
            out.push(record);
        }
        i = i + 1;
    }
    proof {
        assert(s.take(i as int) =~= s);
    }
    out
}

/// Splits the records of two inputs that need not be sorted: each part
/// comes out sorted and without a record twice.
pub fn diff_naive(a: Vec<Vec<u8>>, b: Vec<Vec<u8>>) -> (d: Diff)
    ensures
        splits(d.parts(), views(a@), views(b@)),
{
    let ghost va = views(a@);
    let ghost vb = views(b@);
    proof {
        crate::record::lemma_sort_sorts(va);
        crate::record::lemma_sort_sorts(vb);
    }
    let first = distinct(sort_records(a));
    let second = distinct(sort_records(b));
    let d = diff_sorted(&first, &second);
    proof {
        let fa = views(first@);
        let fb = views(second@);
        lemma_parts_of_sorted(fa, fb);
        assert forall|x: Seq<u8>| (fa.contains(x) <==> va.contains(x)) && (fb.contains(x)
            <==> vb.contains(x)) by {
            lemma_sort_keeps_members(va, x);
            lemma_sort_keeps_members(vb, x);
        }
        let p = d.parts();
        assert forall|x: Seq<u8>| #[trigger]
            p.first_only.contains(x) <==> va.contains(x) && !vb.contains(x) by {
            assert(p.first_only.contains(x) <==> fa.contains(x) && !fb.contains(x));
        }
        assert forall|x: Seq<u8>| #[trigger]
            p.second_only.contains(x) <==> vb.contains(x) && !va.contains(x) by {
            assert(p.second_only.contains(x) <==> fb.contains(x) && !fa.contains(x));
        }
        assert forall|x: Seq<u8>| #[trigger] p.both.contains(x) <==> va.contains(x) && vb.contains(
            x,
        ) by {
            assert(p.both.contains(x) <==> fa.contains(x) && fb.contains(x));
        }
    }
    d
}

} // verus!
