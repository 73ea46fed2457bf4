//! The whole sort on a store that is held in memory, and what holds of it.

use vstd::pervasive::unreached;
use vstd::prelude::*;
use vstd::seq_lib::{lemma_flatten_concat, lemma_multiset_commutative, to_multiset_contains};

use crate::ingest::{form_runs, indexes, offset_of, runs_of, store_of};
use crate::kway::{all_sorted, cut_short, indexed_runs, merge_runs, run_records};
use crate::record::{
    lemma_lex_le_reflexive, lemma_sort_sorts, lemma_sort_unique, sort, sorted, views,
};
use crate::store::{
    all_newline_free, encode, encode_run, is_newline_free, lemma_encode_add,
    lemma_lines_newline_free, lemma_lines_of_encoded, lines, newline_free, records_from,
    StoreReader,
};

verus! {

/// The result of merging the given runs: their records, sorted.
pub open spec fn merged(runs: Seq<Seq<Seq<u8>>>) -> Seq<Seq<u8>> {
    sort(runs.flatten())
}

/// The result of sorting `input` through runs of `size` records.
pub open spec fn sorted_externally(input: Seq<Seq<u8>>, size: int) -> Seq<Seq<u8>> {
    merged(runs_of(input, size))
}

/// Every run but the last holds `size` records, the last holds at least one
/// and no more than `size`.
pub open spec fn well_sized(runs: Seq<Seq<Seq<u8>>>, size: int) -> bool {
    forall|k: int|
        0 <= k < runs.len() ==> 0 < (#[trigger] runs[k]).len() <= size && (k + 1 < runs.len()
            ==> runs[k].len() == size)
}

/// Records that occur among records without newlines hold no newline.
pub proof fn lemma_newline_free_among(a: Seq<Seq<u8>>, b: Seq<Seq<u8>>)
    requires
        a.to_multiset() == b.to_multiset(),
        all_newline_free(b),
    ensures
        all_newline_free(a),
{
    assert forall|i: int| 0 <= i < a.len() implies newline_free(#[trigger] a[i]) by {
        to_multiset_contains(a, a[i]);
        to_multiset_contains(b, a[i]);
        assert(a.contains(a[i]));
        let j = choose|j: int| 0 <= j < b.len() && b[j] == a[i];
        assert(newline_free(b[j]));
    }
}

/// The runs that are formed of an input are sorted and of the right sizes,
/// and hold the records of the input, each as often as the input holds it.
pub proof fn lemma_runs_of(input: Seq<Seq<u8>>, size: int)
    requires
        size >= 1,
    ensures
        all_sorted(runs_of(input, size)),
        well_sized(runs_of(input, size), size),
        runs_of(input, size).flatten().to_multiset() == input.to_multiset(),
    decreases input.len(),
{
    let runs = runs_of(input, size);
    if input.len() == 0 {
        crate::ingest::lemma_runs_none(input, size);
        assert(runs.flatten() =~= input);
    } else if input.len() <= size {
        crate::ingest::lemma_runs_last(input, size);
        lemma_sort_sorts(input);
        runs.lemma_flatten_one_element();
    } else {
        let head = input.take(size);
        let rest = input.skip(size);
        crate::ingest::lemma_runs_step(input, size);
        lemma_runs_of(rest, size);
        lemma_sort_sorts(head);
        let first = seq![sort(head)];
        let others = runs_of(rest, size);
        first.lemma_flatten_one_element();
        lemma_flatten_concat(first, others);
        lemma_multiset_commutative(sort(head), others.flatten());
        lemma_multiset_commutative(head, rest);
        assert(input =~= head + rest);
        assert(others.len() > 0) by {
            if others.len() == 0 {
                assert(others.flatten() =~= Seq::<Seq<u8>>::empty());
                vstd::seq_lib::to_multiset_len(others.flatten());
                vstd::seq_lib::to_multiset_len(rest);
            }
        }
        assert forall|k: int| 0 <= k < runs.len() implies sorted(#[trigger] runs[k]) by {
            if k > 0 {
                assert(runs[k] == others[k - 1]);
            }
        }
        assert forall|k: int| 0 <= k < runs.len() implies 0 < (#[trigger] runs[k]).len() <= size
            && (k + 1 < runs.len() ==> runs[k].len() == size) by {
            if k > 0 {
                assert(runs[k] == others[k - 1]);
            }
        }
    }
}

/// In the store that holds runs of records without newlines, a reader that
/// starts where run `k` begins finds the records of that run and of those
/// after it.
pub proof fn lemma_store_reads_back(runs: Seq<Seq<Seq<u8>>>, k: int)
    requires
        all_newline_free(runs.flatten()),
        0 <= k < runs.len(),
    ensures
        0 <= offset_of(runs, k) <= store_of(runs).len(),
        records_from(store_of(runs), offset_of(runs, k)) == runs.skip(k).flatten(),
{
    let before = runs.take(k).flatten();
    let after = runs.skip(k).flatten();
    assert(runs =~= runs.take(k) + runs.skip(k));
    lemma_flatten_concat(runs.take(k), runs.skip(k));
    lemma_encode_add(before, after);
    assert(store_of(runs).skip(offset_of(runs, k)) =~= encode(after));
    assert(all_newline_free(after)) by {
        assert forall|i: int| 0 <= i < after.len() implies newline_free(#[trigger] after[i]) by {
            assert(after[i] == runs.flatten()[before.len() + i]);
        }
    }
    lemma_lines_of_encoded(after, Seq::<u8>::empty());
    assert(encode(after) + Seq::<u8>::empty() =~= encode(after));
    assert(after + lines(Seq::<u8>::empty()) =~= after);
}

/// A store that holds well-sized runs of records without newlines, read
/// through the index of those runs, gives the runs back, and none is cut
/// short.
pub proof fn lemma_runs_read_back(runs: Seq<Seq<Seq<u8>>>, offsets: Seq<u64>, size: nat)
    requires
        size >= 1,
        well_sized(runs, size as int),
        all_newline_free(runs.flatten()),
        indexes(offsets, runs),
    ensures
        indexed_runs(store_of(runs), offsets, size) == runs,
        forall|k: int| !cut_short(store_of(runs), offsets, size, k),
{
    let store = store_of(runs);
    assert forall|k: int| 0 <= k < runs.len() implies run_records(store, offsets[k] as int, size)
        == runs[k] && records_from(store, offsets[k] as int).len() >= runs[k].len() by {
        lemma_store_reads_back(runs, k);
        assert(offsets[k] == offset_of(runs, k));
        let tail = runs.skip(k);
        let found = tail.flatten();
        assert(tail.drop_first() =~= runs.skip(k + 1));
        assert(found == runs[k] + runs.skip(k + 1).flatten());
        if k + 1 < runs.len() {
            let next = runs.skip(k + 1);
            assert(next.flatten() == next[0] + next.drop_first().flatten());
            assert(next[0] == runs[k + 1]);
            assert(found.take(size as int) =~= runs[k]);
        } else {
            assert(runs.skip(k + 1).flatten() =~= Seq::<Seq<u8>>::empty());
            assert(found =~= runs[k]);
        }
    }
    assert(indexed_runs(store, offsets, size) =~= runs);
    assert forall|k: int| !cut_short(store, offsets, size, k) by {
        if 0 <= k < offsets.len() - 1 {
            assert(records_from(store, offsets[k] as int).len() >= runs[k].len());
        }
    }
}

/// Sorts `input` as the engine does: forms runs of `batch_size` records,
/// writes them to a store held in memory, and merges them. The result is
/// the input in sorted order, with each record as often as in the input.
pub fn external_sort(input: Vec<Vec<u8>>, batch_size: usize) -> (out: Vec<Vec<u8>>)
    requires
        batch_size >= 1,
        all_newline_free(views(input@)),
    ensures
        views(out@) == sorted_externally(views(input@), batch_size as int),
        views(out@) == sort(views(input@)),
{
    let ghost lines = views(input@);
    let ghost runs = runs_of(lines, batch_size as int);
    let (store, index) = form_runs(input, batch_size);
    proof {
        lemma_runs_of(lines, batch_size as int);
        lemma_newline_free_among(runs.flatten(), lines);
        lemma_runs_read_back(runs, index.offsets@, batch_size as nat);
    }
    match merge_runs(&store, &index) {
        Ok(out) => {
            proof {
                lemma_sort_unique(runs.flatten(), views(out@));
                lemma_sort_unique(lines, views(out@));
            }
            out
        },
        Err(_) => unreached(),
    }
}

/// Sorts `input` as the engine does, if it can be sorted so: the batches
/// must hold at least one record, and no record may hold a newline, which
/// would cut it in two in the store. Otherwise nothing is sorted.
pub fn sort_lines(input: Vec<Vec<u8>>, batch_size: usize) -> (out: Option<Vec<Vec<u8>>>)
    ensures
        match out {
            Some(records) => batch_size >= 1 && all_newline_free(views(input@)) && views(records@)
                == sort(views(input@)),
            None => batch_size < 1 || !all_newline_free(views(input@)),
        },
{
    if batch_size < 1 {
        return None;
    }
    let mut i: usize = 0;
    while i < input.len()
        invariant
            i <= input.len(),
            forall|k: int| 0 <= k < i ==> newline_free(#[trigger] views(input@)[k]),
        decreases input.len() - i,
    {
        if !is_newline_free(&input[i]) {
            assert(!newline_free(views(input@)[i as int]));
            return None;
        }
        i = i + 1;
    }
    Some(external_sort(input, batch_size))
}

/// Sorts the lines that `input` holds, as the engine does, and gives them
/// back as bytes, each line followed by a newline.
pub fn sort_bytes(input: &Vec<u8>, batch_size: usize) -> (out: Vec<u8>)
    requires
        batch_size >= 1,
    ensures
        out@ == encode(sort(lines(input@))),
{
    let mut reader = StoreReader::open(input, 0);
    let mut records: Vec<Vec<u8>> = Vec::new();
    proof {
        assert(input@.skip(0) =~= input@);
        assert(views(records@) + reader.pending() =~= lines(input@));
    }
    loop
        invariant
            lines(input@) == views(records@) + reader.pending(),
        ensures
            views(records@) == lines(input@),
        decreases reader.pending().len(),
    {
        let ghost before = reader.pending();
        match reader.read_record() {
            Some(record) => {
                proof {
                    crate::sorting::lemma_views_push(records@, record);
                    assert(views(records@).push(record@) + before.drop_first() =~= views(records@)
                        + before);
                }
                records.push(record);
            },
            None => {
                proof {
                    assert(views(records@) + before =~= views(records@));
                }
                break;
            },
        }
    }
    proof {
        lemma_lines_newline_free(input@);
    }
    let sorted = external_sort(records, batch_size);
    encode_run(&sorted)
}

/// However the input is cut into runs, the result is the input in sorted
/// order: it is sorted, and it holds each record as often as the input does.
pub proof fn lemma_external_sort_sorts(input: Seq<Seq<u8>>, size: int)
    requires
        size >= 1,
    ensures
        sorted(sorted_externally(input, size)),
        sorted_externally(input, size).to_multiset() == input.to_multiset(),
        sorted_externally(input, size).len() == input.len(),
        sorted_externally(input, size) == sort(input),
{
    let out = sorted_externally(input, size);
    lemma_runs_of(input, size);
    lemma_sort_sorts(runs_of(input, size).flatten());
    lemma_sort_unique(input, out);
    lemma_sort_sorts(input);
}

/// With runs of one record each, the result is that of sorting the input
/// in memory at once.
pub proof fn lemma_single_record_runs(input: Seq<Seq<u8>>)
    ensures
        sorted_externally(input, 1) == sort(input),
        runs_of(input, 1).len() == input.len(),
        forall|k: int| 0 <= k < input.len() ==> #[trigger] runs_of(input, 1)[k] == seq![input[k]],
    decreases input.len(),
{
    lemma_external_sort_sorts(input, 1);
    if input.len() == 0 {
        crate::ingest::lemma_runs_none(input, 1);
    } else {
        crate::ingest::lemma_runs_step(input, 1);
        lemma_single_record_runs(input.skip(1));
        let first = input.take(1);
        lemma_sort_sorts(first);
        assert(sort(first) =~= seq![input[0]]) by {
            to_multiset_contains(first, sort(first)[0]);
            to_multiset_contains(sort(first), sort(first)[0]);
            assert(sort(first).contains(sort(first)[0]));
        }
        assert forall|k: int| 0 <= k < input.len() implies #[trigger] runs_of(input, 1)[k]
            == seq![input[k]] by {
            if k > 0 {
                assert(runs_of(input, 1)[k] == runs_of(input.skip(1), 1)[k - 1]);
                assert(input.skip(1)[k - 1] == input[k]);
            }
        }
    }
}

/// An input that is sorted comes out as it went in, whatever the size of the runs.
pub proof fn lemma_sorted_input_unchanged(input: Seq<Seq<u8>>, size: int)
    requires
        size >= 1,
        sorted(input),
    ensures
        sorted_externally(input, size) == input,
{
    lemma_external_sort_sorts(input, size);
    lemma_sort_unique(input, input);
}

/// An input that makes no more than one batch gives one run, and merging
/// one run gives that run.
pub proof fn lemma_one_run(input: Seq<Seq<u8>>, size: int)
    requires
        0 < input.len() <= size,
    ensures
        runs_of(input, size) == seq![sort(input)],
        merged(runs_of(input, size)) == sort(input),
{
    crate::ingest::lemma_runs_last(input, size);
    lemma_external_sort_sorts(input, size);
}

/// No input gives no run and no output.
pub proof fn lemma_empty_input(size: int)
    requires
        size >= 1,
    ensures
        runs_of(Seq::<Seq<u8>>::empty(), size) == Seq::<Seq<Seq<u8>>>::empty(),
        sorted_externally(Seq::<Seq<u8>>::empty(), size) == Seq::<Seq<u8>>::empty(),
{
    let none = Seq::<Seq<u8>>::empty();
    crate::ingest::lemma_runs_none(none, size);
    lemma_external_sort_sorts(none, size);
    assert(sorted_externally(none, size) =~= none);
}

/// An input that is one record over and over comes out as it went in.
pub proof fn lemma_identical_records(input: Seq<Seq<u8>>, size: int)
    requires
        size >= 1,
        forall|i: int| 0 <= i < input.len() ==> #[trigger] input[i] == input[0],
    ensures
        sorted_externally(input, size) == input,
{
    assert forall|i: int, j: int| 0 <= i < j < input.len() implies crate::record::lex_le(
        #[trigger] input[i],
        #[trigger] input[j],
    ) by {
        lemma_lex_le_reflexive(input[0]);
    }
    lemma_sorted_input_unchanged(input, size);
}

} // verus!
