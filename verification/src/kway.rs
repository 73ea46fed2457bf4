//! The merge phase on a store that is held in memory: one reader and one
//! cursor for each run, and a frontier that gives the cursor whose record is
//! least until every run has ended.
//!
//! [`RunMerge`] gives the records of the merge one at a time; [`merge_runs`]
//! gathers them all. What is said of them is said over the runs that the
//! index finds in the store, [`indexed_runs`]: a run reaches from its place
//! in the store as far as its reader goes, which stops after as many records
//! as a run may hold or at the end of the store.

use vstd::multiset::Multiset;
use vstd::prelude::*;
use vstd::seq_lib::{
    lemma_flatten_concat, lemma_multiset_commutative, to_multiset_build, to_multiset_len,
};

use crate::merge::{Cursor, MergeError, MergeFrontier, MergeStream};
use crate::record::{lemma_lex_le_transitive, lex_le, sorted, views};
use crate::run_writer::RunIndex;
use crate::sorting::lemma_views_push;
use crate::store::{records_from, StoreReader};

verus! {

/// The records of a run as its reader gives them: those that stand in the
/// store from `offset` on, up to `limit` of them.
pub open spec fn run_records(store: Seq<u8>, offset: int, limit: nat) -> Seq<Seq<u8>> {
    let all = records_from(store, offset);
    if all.len() <= limit {
        all
    } else {
        all.take(limit as int)
    }
}

/// Reads one run from a store held in memory: the records from `offset` on,
/// until `limit` of them are read or the store ends.
pub fn read_run(store: &Vec<u8>, offset: u64, limit: usize) -> (run: Vec<Vec<u8>>)
    ensures
        views(run@) == run_records(store@, offset as int, limit as nat),
{
    let mut reader = StoreReader::open(store, offset);
    let ghost all = records_from(store@, offset as int);
    let mut run: Vec<Vec<u8>> = Vec::new();
    proof {
        assert(all.skip(0) =~= all);
        assert(views(run@) =~= all.take(0));
    }
    while run.len() < limit
        invariant
            run.len() <= all.len(),
            run.len() <= limit,
            all == records_from(store@, offset as int),
            views(run@) == all.take(run.len() as int),
            reader.pending() == all.skip(run.len() as int),
        ensures
            all == records_from(store@, offset as int),
            run.len() <= all.len(),
            views(run@) == all.take(run.len() as int),
            run.len() == limit || run.len() == all.len(),
        decreases limit - run.len(),
    {
        match reader.read_record() {
            Some(record) => {
                proof {
                    let n = run.len() as int;
                    lemma_views_push(run@, record);
                    assert(all.take(n).push(all[n]) =~= all.take(n + 1));
                    assert(all.skip(n).drop_first() =~= all.skip(n + 1));
                }
                run.push(record);
            },
            None => {
                assert(all.skip(run.len() as int).len() == all.len() - run.len());
                break;
            },
        }
    }
    proof {
        assert(all.take(all.len() as int) =~= all);
    }
    run
}

/// The runs that an index finds in a store.
pub open spec fn indexed_runs(store: Seq<u8>, offsets: Seq<u64>, limit: nat) -> Seq<Seq<Seq<u8>>> {
    Seq::new(offsets.len(), |k: int| run_records(store, offsets[k] as int, limit))
}

/// Run `k` is not the last one, and the store ends before the run has given
/// `limit` records.
pub open spec fn cut_short(store: Seq<u8>, offsets: Seq<u64>, limit: nat, k: int) -> bool {
    &&& 0 <= k < offsets.len() - 1
    &&& records_from(store, offsets[k] as int).len() < limit
}

/// Each of the runs is sorted.
pub open spec fn all_sorted(runs: Seq<Seq<Seq<u8>>>) -> bool {
    forall|k: int| 0 <= k < runs.len() ==> sorted(#[trigger] runs[k])
}

/// What stands in the store from the place of each run on.
spec fn readable(store: Seq<u8>, offsets: Seq<u64>) -> Seq<Seq<Seq<u8>>> {
    Seq::new(offsets.len(), |k: int| records_from(store, offsets[k] as int))
}

/// How many records run `k` gives.
spec fn bound(all: Seq<Seq<Seq<u8>>>, limit: nat, k: int) -> int {
    if all[k].len() <= limit {
        all[k].len() as int
    } else {
        limit as int
    }
}

/// The cursor of run `k` when the run has given `at[k]` records.
spec fn cursor_at(all: Seq<Seq<Seq<u8>>>, limit: nat, at: Seq<int>, k: int) -> Cursor {
    Cursor {
        head: all[k][at[k]],
        run: k as usize,
        left: (limit - 1 - at[k]) as usize,
        is_final: k + 1 == all.len(),
    }
}

/// The cursors of those among the first `upto` runs that have not ended.
spec fn standing(all: Seq<Seq<Seq<u8>>>, limit: nat, at: Seq<int>, upto: int) -> Multiset<Cursor>
    decreases upto,
{
    if upto <= 0 {
        Multiset::empty()
    } else if at[upto - 1] < bound(all, limit, upto - 1) {
        standing(all, limit, at, upto - 1).insert(cursor_at(all, limit, at, upto - 1))
    } else {
        standing(all, limit, at, upto - 1)
    }
}

/// No run has given more than it holds.
spec fn within(all: Seq<Seq<Seq<u8>>>, limit: nat, at: Seq<int>, upto: int) -> bool {
    &&& at.len() == all.len()
    &&& 0 <= upto <= all.len()
    &&& all.len() <= usize::MAX
    &&& forall|k: int| 0 <= k < upto ==> 0 <= #[trigger] at[k] <= bound(all, limit, k)
}

/// What stands depends on what the runs before `upto` have given, and on
/// nothing else.
proof fn lemma_frame(all: Seq<Seq<Seq<u8>>>, limit: nat, at: Seq<int>, after: Seq<int>, upto: int)
    requires
        forall|k: int| 0 <= k < upto ==> at[k] == after[k],
    ensures
        standing(all, limit, at, upto) == standing(all, limit, after, upto),
    decreases upto,
{
    if upto > 0 {
        lemma_frame(all, limit, at, after, upto - 1);
    }
}

/// Each cursor that stands is that of a run that has not ended.
proof fn lemma_standing_member(
    all: Seq<Seq<Seq<u8>>>,
    limit: nat,
    at: Seq<int>,
    upto: int,
    c: Cursor,
) -> (k: int)
    requires
        within(all, limit, at, upto),
        standing(all, limit, at, upto).contains(c),
    ensures
        0 <= k < upto,
        at[k] < bound(all, limit, k),
        c == cursor_at(all, limit, at, k),
    decreases upto,
{
    if upto <= 0 {
        0
    } else if at[upto - 1] < bound(all, limit, upto - 1) && c == cursor_at(
        all,
        limit,
        at,
        upto - 1,
    ) {
        upto - 1
    } else {
        lemma_standing_member(all, limit, at, upto - 1, c)
    }
}

/// The cursor of each run that has not ended stands, once.
proof fn lemma_standing_count(all: Seq<Seq<Seq<u8>>>, limit: nat, at: Seq<int>, upto: int, k: int)
    requires
        within(all, limit, at, upto),
        0 <= k < all.len(),
    ensures
        standing(all, limit, at, upto).count(cursor_at(all, limit, at, k)) == (if k < upto && at[k]
            < bound(all, limit, k) {
            1int
        } else {
            0int
        }),
        standing(all, limit, at, upto).len() <= upto,
    decreases upto,
{
    if upto > 0 {
        lemma_standing_count(all, limit, at, upto - 1, k);
        if k != upto - 1 {
            assert(cursor_at(all, limit, at, k).run != cursor_at(all, limit, at, upto - 1).run);
        }
    }
}

/// When run `r` gives a record and goes on, its cursor is replaced by the
/// one that stands at the next record.
proof fn lemma_step_on(all: Seq<Seq<Seq<u8>>>, limit: nat, at: Seq<int>, upto: int, r: int)
    requires
        within(all, limit, at, upto),
        0 <= r < upto,
        at[r] + 1 < bound(all, limit, r),
    ensures
        standing(all, limit, at.update(r, at[r] + 1), upto) == standing(all, limit, at, upto).remove(
            cursor_at(all, limit, at, r),
        ).insert(cursor_at(all, limit, at.update(r, at[r] + 1), r)),
    decreases upto,
{
    let after = at.update(r, at[r] + 1);
    let was = cursor_at(all, limit, at, r);
    if r == upto - 1 {
        lemma_frame(all, limit, at, after, upto - 1);
        lemma_standing_count(all, limit, at, upto - 1, r);
        assert(standing(all, limit, after, upto) =~= standing(all, limit, at, upto).remove(was).insert(
            cursor_at(all, limit, after, r),
        ));
    } else {
        lemma_step_on(all, limit, at, upto - 1, r);
        lemma_standing_count(all, limit, at, upto - 1, r);
        assert(cursor_at(all, limit, after, upto - 1) == cursor_at(all, limit, at, upto - 1));
        assert(cursor_at(all, limit, at, upto - 1).run != was.run);
        assert(standing(all, limit, after, upto) =~= standing(all, limit, at, upto).remove(was).insert(
            cursor_at(all, limit, after, r),
        ));
    }
}

/// When run `r` gives its last record, its cursor is gone.
proof fn lemma_step_out(all: Seq<Seq<Seq<u8>>>, limit: nat, at: Seq<int>, upto: int, r: int)
    requires
        within(all, limit, at, upto),
        0 <= r < upto,
        at[r] + 1 == bound(all, limit, r),
    ensures
        standing(all, limit, at.update(r, at[r] + 1), upto) == standing(all, limit, at, upto).remove(
            cursor_at(all, limit, at, r),
        ),
    decreases upto,
{
    let after = at.update(r, at[r] + 1);
    let was = cursor_at(all, limit, at, r);
    if r == upto - 1 {
        lemma_frame(all, limit, at, after, upto - 1);
        lemma_standing_count(all, limit, at, upto - 1, r);
        assert(standing(all, limit, after, upto) =~= standing(all, limit, at, upto).remove(was));
    } else {
        lemma_step_out(all, limit, at, upto - 1, r);
        lemma_standing_count(all, limit, at, upto - 1, r);
        assert(cursor_at(all, limit, after, upto - 1) == cursor_at(all, limit, at, upto - 1));
        assert(cursor_at(all, limit, at, upto - 1).run != was.run);
        assert(standing(all, limit, after, upto) =~= standing(all, limit, at, upto).remove(was));
    }
}

/// Each reader of a run that has not ended stands behind the record at
/// which the cursor of the run stands.
spec fn readers_stand<'a>(
    readers: Seq<StoreReader<'a>>,
    all: Seq<Seq<Seq<u8>>>,
    limit: nat,
    at: Seq<int>,
    upto: int,
) -> bool {
    &&& readers.len() == upto
    &&& forall|k: int|
        0 <= k < upto && at[k] < bound(all, limit, k) ==> (#[trigger] readers[k]).pending()
            == all[k].skip(at[k] + 1)
}

/// No run that has ended was cut short.
spec fn ended_well(all: Seq<Seq<Seq<u8>>>, limit: nat, at: Seq<int>, upto: int) -> bool {
    forall|k: int|
        0 <= k < upto && k + 1 < all.len() && #[trigger] at[k] >= bound(all, limit, k)
            ==> all[k].len() >= limit
}

/// Among sorted sequences of records that are still to come, one for each
/// run, the least of the records that come first is the least of all: no
/// record of a run is less than the one that comes first in it.
pub proof fn lemma_least_head_is_least(pending: Seq<Seq<Seq<u8>>>, k: int)
    requires
        all_sorted(pending),
        0 <= k < pending.len(),
        pending[k].len() > 0,
        forall|j: int|
            0 <= j < pending.len() && pending[j].len() > 0 ==> lex_le(
                pending[k][0],
                #[trigger] pending[j][0],
            ),
    ensures
        forall|j: int, m: int|
            0 <= j < pending.len() && 0 <= m < pending[j].len() ==> lex_le(
                pending[k][0],
                #[trigger] pending[j][m],
            ),
{
    let least = pending[k][0];
    assert forall|j: int, m: int|
        0 <= j < pending.len() && 0 <= m < pending[j].len() implies lex_le(
        least,
        #[trigger] pending[j][m],
    ) by {
        assert(lex_le(least, pending[j][0]));
        if m > 0 {
            assert(sorted(pending[j]));
            assert(lex_le(pending[j][0], pending[j][m]));
            lemma_lex_le_transitive(least, pending[j][0], pending[j][m]);
        }
    }
}

/// Run `k` gives `record`: it is the record that comes first in the run,
/// it is no greater than the record that comes first in any run, and the
/// runs are left with what they held but for that record.
pub open spec fn gives(
    before: Seq<Seq<Seq<u8>>>,
    after: Seq<Seq<Seq<u8>>>,
    k: int,
    record: Seq<u8>,
) -> bool {
    &&& 0 <= k < before.len()
    &&& before[k].len() > 0
    &&& record == before[k][0]
    &&& after == before.update(k, before[k].drop_first())
    &&& forall|j: int|
        0 <= j < before.len() && before[j].len() > 0 ==> lex_le(record, #[trigger] before[j][0])
}

/// Every run has ended: none has a record yet to give.
pub open spec fn exhausted(pending: Seq<Seq<Seq<u8>>>) -> bool {
    forall|k: int| 0 <= k < pending.len() ==> (#[trigger] pending[k]).len() == 0
}

/// The records that sequences hold together, when one of them loses its
/// first record, are those that they held, but for that record.
pub proof fn lemma_flatten_without_first(pending: Seq<Seq<Seq<u8>>>, k: int)
    requires
        0 <= k < pending.len(),
        pending[k].len() > 0,
    ensures
        pending.flatten().to_multiset() == pending.update(
            k,
            pending[k].drop_first(),
        ).flatten().to_multiset().insert(pending[k][0]),
        pending.flatten().len() == pending.update(k, pending[k].drop_first()).flatten().len() + 1,
{
    let rest = pending[k].drop_first();
    let less = pending.update(k, rest);
    let head = pending.take(k);
    let tail = pending.skip(k + 1);
    assert(pending =~= head + seq![pending[k]] + tail);
    assert(less =~= head + seq![rest] + tail);
    lemma_flatten_concat(head + seq![pending[k]], tail);
    lemma_flatten_concat(head, seq![pending[k]]);
    lemma_flatten_concat(head + seq![rest], tail);
    lemma_flatten_concat(head, seq![rest]);
    seq![pending[k]].lemma_flatten_one_element();
    seq![rest].lemma_flatten_one_element();
    let a = head.flatten();
    let b = tail.flatten();
    assert(pending[k] =~= seq![pending[k][0]] + rest);
    lemma_multiset_commutative(a + pending[k], b);
    lemma_multiset_commutative(a, pending[k]);
    lemma_multiset_commutative(a + rest, b);
    lemma_multiset_commutative(a, rest);
    lemma_multiset_commutative(seq![pending[k][0]], rest);
    assert(seq![pending[k][0]].to_multiset() =~= Multiset::<Seq<u8>>::empty().insert(
        pending[k][0],
    )) by {
        to_multiset_build(Seq::<Seq<u8>>::empty(), pending[k][0]);
        assert(Seq::<Seq<u8>>::empty().push(pending[k][0]) =~= seq![pending[k][0]]);
        to_multiset_len(Seq::<Seq<u8>>::empty());
        vstd::multiset::lemma_multiset_empty_len(Seq::<Seq<u8>>::empty().to_multiset());
    }
    assert(pending.flatten().to_multiset() =~= less.flatten().to_multiset().insert(pending[k][0]));
}

/// Sequences that hold nothing hold nothing together.
pub proof fn lemma_flatten_of_empty(pending: Seq<Seq<Seq<u8>>>)
    requires
        exhausted(pending),
    ensures
        pending.flatten() == Seq::<Seq<u8>>::empty(),
    decreases pending.len(),
{
    if pending.len() > 0 {
        let rest = pending.drop_first();
        assert forall|k: int| 0 <= k < rest.len() implies (#[trigger] rest[k]).len() == 0 by {
            assert(rest[k] == pending[k + 1]);
        }
        lemma_flatten_of_empty(rest);
        assert(pending[0].len() == 0);
    }
    assert(pending.flatten() =~= Seq::<Seq<u8>>::empty());
}

/// The runs that the index finds are what stands at the place of each run,
/// as far as a run may reach.
proof fn lemma_runs_of_readable(store: Seq<u8>, offsets: Seq<u64>, limit: nat)
    ensures
        forall|k: int|
            0 <= k < offsets.len() ==> #[trigger] indexed_runs(store, offsets, limit)[k]
                == readable(store, offsets)[k].take(bound(readable(store, offsets), limit, k)),
        forall|k: int|
            0 <= k < offsets.len() ==> (#[trigger] indexed_runs(store, offsets, limit)[k]).len()
                == bound(readable(store, offsets), limit, k),
{
    let all = readable(store, offsets);
    let runs = indexed_runs(store, offsets, limit);
    assert forall|k: int| 0 <= k < offsets.len() implies #[trigger] runs[k] == all[k].take(
        bound(all, limit, k),
    ) by {
        assert(runs[k] =~= all[k].take(bound(all, limit, k)));
    }
}

/// What each run has yet to give, when `at` says how many records each has given.
spec fn left_of(runs: Seq<Seq<Seq<u8>>>, at: Seq<int>) -> Seq<Seq<Seq<u8>>> {
    Seq::new(runs.len(), |k: int| runs[k].skip(at[k]))
}

/// How many of the runs have not ended: those that have a record yet to give.
pub open spec fn unended(pending: Seq<Seq<Seq<u8>>>) -> nat
    decreases pending.len(),
{
    if pending.len() == 0 {
        0
    } else if pending.last().len() > 0 {
        unended(pending.drop_last()) + 1
    } else {
        unended(pending.drop_last())
    }
}

/// No more runs are unended than there are runs.
pub proof fn lemma_unended_at_most(pending: Seq<Seq<Seq<u8>>>)
    ensures
        unended(pending) <= pending.len(),
    decreases pending.len(),
{
    if pending.len() > 0 {
        lemma_unended_at_most(pending.drop_last());
    }
}

/// As many cursors stand as there are runs that have not ended.
proof fn lemma_standing_unended(
    store: Seq<u8>,
    offsets: Seq<u64>,
    limit: nat,
    at: Seq<int>,
    upto: int,
)
    requires
        within(readable(store, offsets), limit, at, upto),
    ensures
        standing(readable(store, offsets), limit, at, upto).len() == unended(
            left_of(indexed_runs(store, offsets, limit), at).take(upto),
        ),
    decreases upto,
{
    let all = readable(store, offsets);
    let runs = indexed_runs(store, offsets, limit);
    let left = left_of(runs, at);
    if upto > 0 {
        lemma_standing_unended(store, offsets, limit, at, upto - 1);
        lemma_runs_of_readable(store, offsets, limit);
        assert(left.take(upto).drop_last() =~= left.take(upto - 1));
        assert(left.take(upto).last() == left[upto - 1]);
        assert(runs[upto - 1].len() == bound(all, limit, upto - 1));
        assert(0 <= at[upto - 1] <= bound(all, limit, upto - 1));
        assert(left[upto - 1].len() == runs[upto - 1].len() - at[upto - 1]);
    }
}

/// The merge of the runs of a store that is held in memory, one record at a
/// time: it holds a reader for each run and the frontier of their cursors.
pub struct RunMerge<'a> {
    readers: Vec<StoreReader<'a>>,
    frontier: MergeFrontier,
    limit: usize,
    failure: Option<MergeError>,
    store: Ghost<Seq<u8>>,
    offsets: Ghost<Seq<u64>>,
    at: Ghost<Seq<int>>,
}

impl<'a> RunMerge<'a> {
    /// A merge that was not given up is sound; one that was given up holds
    /// no cursor.
    #[verifier::type_invariant]
    spec fn consistent(self) -> bool {
        &&& self.failure is None ==> self.sound()
        &&& self.failure is Some ==> self.frontier.cursors().len() == 0
    }

    /// The frontier holds the cursor of each run that has not ended, each
    /// reader stands behind the record of its cursor, and no run that has
    /// ended was cut short.
    spec fn sound(self) -> bool {
        let all = readable(self.store@, self.offsets@);
        let count = self.offsets@.len() as int;
        &&& within(all, self.limit as nat, self.at@, count)
        &&& self.frontier.cursors() == standing(all, self.limit as nat, self.at@, count)
        &&& readers_stand(self.readers@, all, self.limit as nat, self.at@, count)
        &&& ended_well(all, self.limit as nat, self.at@, count)
    }

    /// The store whose runs are merged.
    pub closed spec fn store(&self) -> Seq<u8> {
        self.store@
    }

    /// Where the runs begin.
    pub closed spec fn offsets(&self) -> Seq<u64> {
        self.offsets@
    }

    /// How many records a run holds at most.
    pub closed spec fn limit(&self) -> nat {
        self.limit as nat
    }

    /// Why the merge was given up, if it was.
    pub closed spec fn failure(&self) -> Option<MergeError> {
        self.failure
    }

    /// The records that each run has yet to give, in the order in which it
    /// gives them.
    pub closed spec fn pending(&self) -> Seq<Seq<Seq<u8>>> {
        left_of(indexed_runs(self.store@, self.offsets@, self.limit as nat), self.at@)
    }

    /// Opens a reader at the place of each run and draws the first record
    /// of each. A run that gives none has no cursor; if it is not the last
    /// run, the store is corrupt.
    pub fn open(store: &'a Vec<u8>, index: &RunIndex) -> (r: Result<RunMerge<'a>, MergeError>)
        ensures
            match r {
                Ok(merge) => merge.store() == store@ && merge.offsets() == index.offsets@
                    && merge.limit() == index.limit && merge.failure() is None && merge.pending()
                    == indexed_runs(store@, index.offsets@, index.limit as nat) && forall|k: int|
                    cut_short(store@, index.offsets@, index.limit as nat, k) ==> (
                    #[trigger] indexed_runs(store@, index.offsets@, index.limit as nat)[k]).len()
                        > 0,
                Err(error) => exists|k: int|
                    cut_short(store@, index.offsets@, index.limit as nat, k) && indexed_runs(
                        store@,
                        index.offsets@,
                        index.limit as nat,
                    )[k].len() == 0 && error == (MergeError::CorruptStore { run: k as usize }),
            },
    {
        let count = index.len();
        let limit = index.limit;
        let ghost all = readable(store@, index.offsets@);
        let ghost cap = limit as nat;
        let ghost runs = indexed_runs(store@, index.offsets@, cap);
        let ghost at: Seq<int> = Seq::new(all.len(), |k: int| 0int);
        let mut readers: Vec<StoreReader<'a>> = Vec::new();
        let mut frontier = MergeFrontier::new();
        let mut run: usize = 0;
        proof {
            lemma_runs_of_readable(store@, index.offsets@, cap);
        }
        while run < count
            invariant
                count == index.offsets@.len(),
                limit == index.limit,
                cap == limit as nat,
                all == readable(store@, index.offsets@),
                runs == indexed_runs(store@, index.offsets@, cap),
                run <= count,
                within(all, cap, at, run as int),
                forall|k: int| 0 <= k < all.len() ==> at[k] == 0,
                frontier.cursors() == standing(all, cap, at, run as int),
                readers_stand(readers@, all, cap, at, run as int),
                ended_well(all, cap, at, run as int),
                forall|k: int|
                    0 <= k < run && cut_short(store@, index.offsets@, cap, k) ==> (
                    #[trigger] runs[k]).len() > 0,
            decreases count - run,
        {
            let mut reader = StoreReader::open(store, index.offset(run));
            let first = if limit > 0 {
                reader.read_record()
            } else {
                None
            };
            let is_final = index.is_final(run);
            proof {
                lemma_runs_of_readable(store@, index.offsets@, cap);
                assert(all[run as int] == records_from(store@, index.offsets@[run as int] as int));
                assert(runs[run as int].len() == bound(all, cap, run as int));
                if first is Some {
                    assert(all[run as int].drop_first() =~= all[run as int].skip(1));
                }
            }
            match MergeStream::new(run, limit, is_final, first) {
                Ok(Some(stream)) => {
                    assert(stream@ == cursor_at(all, cap, at, run as int));
                    frontier.push(stream);
                },
                Ok(None) => {},
                Err(error) => {
                    assert(cut_short(store@, index.offsets@, cap, run as int));
                    return Err(error);
                },
            }
            readers.push(reader);
            run = run + 1;
        }
        let merge = RunMerge {
            readers,
            frontier,
            limit,
            failure: None,
            store: Ghost(store@),
            offsets: Ghost(index.offsets@),
            at: Ghost(at),
        };
        proof {
            assert(merge.pending() =~= runs) by {
                assert forall|k: int| 0 <= k < runs.len() implies #[trigger] merge.pending()[k]
                    == runs[k] by {
                    assert(runs[k].skip(0) =~= runs[k]);
                }
            }
        }
        Ok(merge)
    }

    /// How many cursors the frontier holds: one for each run that has not
    /// ended, so no more than there are runs; none once the merge is given up.
    pub fn active(&self) -> (n: usize)
        ensures
            self.failure() is None ==> n == unended(self.pending()),
            self.failure() is None ==> n <= self.offsets().len(),
            self.failure() is Some ==> n == 0,
    {
        proof {
            use_type_invariant(self);
            if self.failure is None {
                lemma_standing_unended(
                    self.store@,
                    self.offsets@,
                    self.limit as nat,
                    self.at@,
                    self.offsets@.len() as int,
                );
                assert(self.pending().take(self.offsets@.len() as int) =~= self.pending());
                lemma_unended_at_most(self.pending());
            }
        }
        self.frontier.len()
    }

    /// What one step does to a merge that has not been given up. Either a
    /// run gives its next record, which is the least of the records at which
    /// the runs stand; or every run has ended, none of them cut short; or
    /// the run whose record is due was cut short, and the merge is given up.
    pub open spec fn step(
        before: Self,
        after: Self,
        r: Result<Option<Vec<u8>>, MergeError>,
    ) -> bool {
        match r {
            Ok(Some(record)) => after.failure() is None && exists|k: int|
                gives(before.pending(), after.pending(), k, record@),
            Ok(None) => after.failure() is None && after.pending() == before.pending()
                && exhausted(before.pending()) && forall|k: int|
                !cut_short(before.store(), before.offsets(), before.limit(), k),
            Err(error) => after.failure() == Some(error) && exists|k: int|
                cut_short(before.store(), before.offsets(), before.limit(), k)
                    && before.pending()[k].len() == 1 && error == (MergeError::CorruptStore {
                    run: k as usize,
                }),
        }
    }

    /// Gives the next record of the merge: the least of the records at
    /// which the runs stand. `None` when every run has ended.
    ///
    /// The merge is given up when the run whose record is due was cut short
    /// by the end of the store and is not the last one; once it is given
    /// up, it stays so.
    pub fn next_record(&mut self) -> (r: Result<Option<Vec<u8>>, MergeError>)
        ensures
            final(self).store() == old(self).store(),
            final(self).offsets() == old(self).offsets(),
            final(self).limit() == old(self).limit(),
            old(self).failure() is Some ==> r is Err && Some(r->Err_0) == old(self).failure()
                && final(self).failure() == old(self).failure(),
            old(self).failure() is None ==> Self::step(*old(self), *final(self), r),
    {
        if let Some(error) = self.failure {
            return Err(error);
        }
        proof {
            use_type_invariant(&*self);
        }
        let ghost all = readable(self.store@, self.offsets@);
        let ghost cap = self.limit as nat;
        let ghost count = self.offsets@.len() as int;
        let ghost runs = indexed_runs(self.store@, self.offsets@, cap);
        let ghost at = self.at@;
        let ghost before = self.frontier.cursors();
        proof {
            lemma_runs_of_readable(self.store@, self.offsets@, cap);
        }
        if self.frontier.is_empty() {
            proof {
                vstd::multiset::lemma_multiset_empty_len(before);
                assert forall|k: int| 0 <= k < count implies (#[trigger] self.pending()[k]).len()
                    == 0 by {
                    lemma_standing_count(all, cap, at, count, k);
                    assert(runs[k].len() == bound(all, cap, k));
                }
                assert forall|k: int| !cut_short(self.store@, self.offsets@, cap, k) by {
                    if 0 <= k < count - 1 {
                        lemma_standing_count(all, cap, at, count, k);
                        assert(at[k] >= bound(all, cap, k));
                    }
                }
            }
            assert(Self::step(*old(self), *self, Ok(None)));
            return Ok(None);
        }
        let ghost pending = self.pending();
        let limit = self.limit;
        let mut taken = RunMerge {
            readers: Vec::new(),
            frontier: MergeFrontier::new(),
            limit,
            failure: Some(MergeError::CorruptStore { run: 0 }),
            store: Ghost(self.store@),
            offsets: Ghost(self.offsets@),
            at: Ghost(self.at@),
        };
        core::mem::swap(self, &mut taken);
        let mut frontier = taken.frontier;
        let mut readers = taken.readers;
        let top = frontier.pop().unwrap();
        let ghost r = lemma_standing_member(all, cap, at, count, top@);
        let ghost after = at.update(r, at[r] + 1);
        let run = top.run();
        let mut reader = readers[run];
        let drawn = if top.wants_more() {
            reader.read_record()
        } else {
            None
        };
        readers.set(run, reader);
        proof {
            assert(all[r].skip(at[r] + 1).len() == all[r].len() - at[r] - 1);
            assert(runs[r].len() == bound(all, cap, r));
            if drawn is Some {
                assert(all[r].skip(at[r] + 1).drop_first() =~= all[r].skip(at[r] + 2));
            }
        }
        match top.next(drawn) {
            Ok((record, rest)) => {
                proof {
                    if rest is Some {
                        lemma_step_on(all, cap, at, count, r);
                    } else {
                        lemma_step_out(all, cap, at, count, r);
                    }
                    assert forall|j: int|
                        0 <= j < pending.len() && pending[j].len() > 0 implies lex_le(
                        record@,
                        #[trigger] pending[j][0],
                    ) by {
                        assert(runs[j].len() == bound(all, cap, j));
                        lemma_standing_count(all, cap, at, count, j);
                        assert(before.contains(cursor_at(all, cap, at, j)));
                        assert(lex_le(top@.head, cursor_at(all, cap, at, j).head));
                    }
                }
                if let Some(stream) = rest {
                    frontier.push(stream);
                }
                *self = RunMerge {
                    readers,
                    frontier,
                    limit,
                    failure: None,
                    store: Ghost(old(self).store@),
                    offsets: Ghost(old(self).offsets@),
                    at: Ghost(after),
                };
                proof {
                    assert(self.pending() =~= pending.update(r, pending[r].drop_first())) by {
                        assert forall|k: int| 0 <= k < runs.len() implies #[trigger] self.pending()[k]
                            == pending.update(r, pending[r].drop_first())[k] by {
                            if k == r {
                                assert(runs[r].skip(at[r] + 1) =~= runs[r].skip(at[r]).drop_first());
                            }
                        }
                    }
                    assert(gives(pending, self.pending(), r, record@));
                }
                let result: Result<Option<Vec<u8>>, MergeError> = Ok(Some(record));
                proof {
                    assert(result matches Ok(Some(given)) ==> gives(
                        old(self).pending(),
                        self.pending(),
                        r,
                        given@,
                    ));
                    assert(Self::step(*old(self), *self, result));
                }
                result
            },
            Err(error) => {
                self.failure = Some(error);
                proof {
                    assert(cut_short(old(self).store(), old(self).offsets(), old(self).limit(), r));
                    assert(old(self).pending()[r].len() == 1);
                    assert(Self::step(*old(self), *self, Err(error)));
                }
                Err(error)
            },
        }
    }
}

/// What was put out is sorted, and none of it is greater than a record that
/// is still to come.
spec fn ordered_so_far(pending: Seq<Seq<Seq<u8>>>, out: Seq<Seq<u8>>) -> bool {
    &&& sorted(out)
    &&& all_sorted(pending)
    &&& forall|x: int, k: int, m: int|
        0 <= x < out.len() && 0 <= k < pending.len() && 0 <= m < pending[k].len() ==> lex_le(
            #[trigger] out[x],
            #[trigger] pending[k][m],
        )
}

/// The least of the records at which the runs stand may be put out next.
proof fn lemma_emit_in_order(
    pending: Seq<Seq<Seq<u8>>>,
    less: Seq<Seq<Seq<u8>>>,
    k: int,
    out: Seq<Seq<u8>>,
)
    requires
        ordered_so_far(pending, out),
        gives(pending, less, k, pending[k][0]),
    ensures
        ordered_so_far(less, out.push(pending[k][0])),
{
    let h = pending[k][0];
    let more = out.push(h);
    lemma_least_head_is_least(pending, k);
    assert forall|j: int| 0 <= j < less.len() implies sorted(#[trigger] less[j]) by {
        assert(sorted(pending[j]));
        if j == k {
            let t = less[j];
            assert forall|a: int, b: int| 0 <= a < b < t.len() implies lex_le(
                #[trigger] t[a],
                #[trigger] t[b],
            ) by {
                assert(lex_le(pending[k][a + 1], pending[k][b + 1]));
            }
        }
    }
    assert forall|x: int, y: int| 0 <= x < y < more.len() implies lex_le(
        #[trigger] more[x],
        #[trigger] more[y],
    ) by {
        if y < out.len() {
            assert(lex_le(out[x], out[y]));
        } else {
            assert(lex_le(out[x], pending[k][0]));
        }
    }
    assert forall|x: int, j: int, m: int|
        0 <= x < more.len() && 0 <= j < less.len() && 0 <= m < less[j].len() implies lex_le(
        #[trigger] more[x],
        #[trigger] less[j][m],
    ) by {
        let n = if j == k {
            m + 1
        } else {
            m
        };
        assert(less[j][m] == pending[j][n]);
        if x < out.len() {
            assert(lex_le(out[x], pending[j][n]));
        } else {
            assert(lex_le(h, pending[j][n]));
        }
    }
}

/// Merges the runs that `index` names in `store` into one sequence, drawing
/// from each run through a reader that stops after as many records as a run
/// may hold, or at the end of the store.
///
/// The merge is given up when a run that is not the last one is cut short by
/// the end of the store. Otherwise the result holds the records of all runs,
/// each as often as the runs hold it, and is sorted if each run is.
pub fn merge_runs(store: &Vec<u8>, index: &RunIndex) -> (r: Result<Vec<Vec<u8>>, MergeError>)
    ensures
        match r {
            Ok(out) => (forall|k: int| !cut_short(store@, index.offsets@, index.limit as nat, k))
                && views(out@).to_multiset() == indexed_runs(
                store@,
                index.offsets@,
                index.limit as nat,
            ).flatten().to_multiset() && (all_sorted(
                indexed_runs(store@, index.offsets@, index.limit as nat),
            ) ==> sorted(views(out@))),
            Err(error) => exists|k: int|
                cut_short(store@, index.offsets@, index.limit as nat, k) && error == (
                MergeError::CorruptStore { run: k as usize }),
        },
{
    let ghost runs = indexed_runs(store@, index.offsets@, index.limit as nat);
    let mut merge = match RunMerge::open(store, index) {
        Ok(merge) => merge,
        Err(error) => {
            return Err(error);
        },
    };
    let mut out: Vec<Vec<u8>> = Vec::new();
    proof {
        assert(views(out@) =~= Seq::<Seq<u8>>::empty());
        lemma_multiset_commutative(views(out@), runs.flatten());
        assert(views(out@) + runs.flatten() =~= runs.flatten());
    }
    loop
        invariant
            merge.failure() is None,
            merge.store() == store@,
            merge.offsets() == index.offsets@,
            merge.limit() == index.limit,
            runs == indexed_runs(store@, index.offsets@, index.limit as nat),
            views(out@).to_multiset().add(merge.pending().flatten().to_multiset())
                == runs.flatten().to_multiset(),
            all_sorted(runs) ==> ordered_so_far(merge.pending(), views(out@)),
        ensures
            forall|k: int| !cut_short(store@, index.offsets@, index.limit as nat, k),
            views(out@).to_multiset() == runs.flatten().to_multiset(),
            all_sorted(runs) ==> sorted(views(out@)),
        decreases merge.pending().flatten().len(),
    {
        let ghost pending = merge.pending();
        match merge.next_record() {
            Ok(Some(record)) => {
                proof {
                    let k = choose|k: int| gives(pending, merge.pending(), k, record@);
                    lemma_flatten_without_first(pending, k);
                    lemma_views_push(out@, record);
                    to_multiset_build(views(out@), record@);
                    assert(views(out@).to_multiset().insert(record@).add(
                        merge.pending().flatten().to_multiset(),
                    ) =~= views(out@).to_multiset().add(pending.flatten().to_multiset()));
                    if all_sorted(runs) {
                        lemma_emit_in_order(pending, merge.pending(), k, views(out@));
                    }
                }
                out.push(record);
            },
            Ok(None) => {
                proof {
                    lemma_flatten_of_empty(pending);
                    to_multiset_len(pending.flatten());
                    vstd::multiset::lemma_multiset_empty_len(pending.flatten().to_multiset());
                    assert(views(out@).to_multiset().add(pending.flatten().to_multiset())
                        =~= views(out@).to_multiset());
                }
                break;
            },
            Err(error) => {
                return Err(error);
            },
        }
    }
    Ok(out)
}

} // verus!
