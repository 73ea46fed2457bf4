//! The ingestion phase on a store that is held in memory: the input is cut
//! into batches, each batch becomes a run, and the runs are written one
//! after another.

use vstd::prelude::*;

use crate::record::{sort, views};
use crate::run_writer::{RunIndex, RunWriter};
use crate::store::{encode, encode_run, lemma_encode_add};

verus! {

/// The batches into which the input falls: `size` records each, in the
/// order of the input, the last batch being what is left over.
pub open spec fn batches(input: Seq<Seq<u8>>, size: int) -> Seq<Seq<Seq<u8>>>
    decreases input.len(),
{
    if size <= 0 || input.len() == 0 {
        Seq::empty()
    } else if input.len() <= size {
        seq![input]
    } else {
        seq![input.take(size)] + batches(input.skip(size), size)
    }
}

/// The runs that are formed of the input: its batches, each one sorted.
pub open spec fn runs_of(input: Seq<Seq<u8>>, size: int) -> Seq<Seq<Seq<u8>>> {
    let b = batches(input, size);
    Seq::new(b.len(), |k: int| sort(b[k]))
}

/// The store that holds the given runs.
pub open spec fn store_of(runs: Seq<Seq<Seq<u8>>>) -> Seq<u8> {
    encode(runs.flatten())
}

/// Where run `k` begins in the store that holds the given runs.
pub open spec fn offset_of(runs: Seq<Seq<Seq<u8>>>, k: int) -> int {
    store_of(runs.take(k)).len() as int
}

/// An index names the places at which the given runs begin.
pub open spec fn indexes(offsets: Seq<u64>, runs: Seq<Seq<Seq<u8>>>) -> bool {
    &&& offsets.len() == runs.len()
    &&& forall|k: int| 0 <= k < runs.len() ==> #[trigger] offsets[k] == offset_of(runs, k)
}

/// The first run is made of the first `size` records, and the others of what follows them.
pub proof fn lemma_runs_step(input: Seq<Seq<u8>>, size: int)
    requires
        1 <= size <= input.len(),
    ensures
        runs_of(input, size) == seq![sort(input.take(size))] + runs_of(input.skip(size), size),
{
    if input.len() == size {
        assert(input.take(size) =~= input);
        assert(batches(input.skip(size), size) =~= Seq::<Seq<Seq<u8>>>::empty());
    }
    assert(runs_of(input, size) =~= seq![sort(input.take(size))] + runs_of(
        input.skip(size),
        size,
    ));
}

/// Fewer records than a batch holds, but at least one, make one run.
pub proof fn lemma_runs_last(input: Seq<Seq<u8>>, size: int)
    requires
        0 < input.len() <= size,
    ensures
        runs_of(input, size) == seq![sort(input)],
{
    assert(runs_of(input, size) =~= seq![sort(input)]);
}

/// No records make no run.
pub proof fn lemma_runs_none(input: Seq<Seq<u8>>, size: int)
    requires
        input.len() == 0,
    ensures
        runs_of(input, size) == Seq::<Seq<Seq<u8>>>::empty(),
{
    assert(runs_of(input, size) =~= Seq::<Seq<Seq<u8>>>::empty());
}

/// Writing one more run appends its bytes to the store and leaves the
/// places of the earlier runs as they were.
pub proof fn lemma_store_push(
    runs: Seq<Seq<Seq<u8>>>,
    run: Seq<Seq<u8>>,
    offsets: Seq<u64>,
    position: u64,
)
    requires
        indexes(offsets, runs),
        position == store_of(runs).len(),
    ensures
        store_of(runs.push(run)) == store_of(runs) + encode(run),
        indexes(offsets.push(position), runs.push(run)),
{
    runs.lemma_flatten_push(run);
    lemma_encode_add(runs.flatten(), run);
    let more = runs.push(run);
    assert forall|k: int| 0 <= k < more.len() implies #[trigger] offsets.push(position)[k]
        == offset_of(more, k) by {
        if k < runs.len() {
            assert(more.take(k) =~= runs.take(k));
            assert(offsets[k] == offset_of(runs, k));
        } else {
            assert(more.take(k) =~= runs);
        }
    }
}

/// Forms the runs of `input` and writes them to a store held in memory.
/// Gives the store and the index of its runs.
pub fn form_runs(input: Vec<Vec<u8>>, batch_size: usize) -> (r: (Vec<u8>, RunIndex))
    requires
        batch_size >= 1,
    ensures
        r.0@ == store_of(runs_of(views(input@), batch_size as int)),
        indexes(r.1.offsets@, runs_of(views(input@), batch_size as int)),
        r.1.limit == batch_size,
{
    let mut input = input;
    let ghost lines = views(input@);
    let ghost size = batch_size as int;
    let mut writer = RunWriter::new(batch_size);
    let mut store: Vec<u8> = Vec::new();
    let ghost mut done: Seq<Seq<Seq<u8>>> = Seq::empty();
    let ghost mut spilled: int = 0;
    let mut i: usize = 0;
    proof {
        assert(lines.skip(0) =~= lines);
        assert(lines.subrange(0, 0) =~= Seq::<Seq<u8>>::empty());
        assert(done + runs_of(lines, size) =~= runs_of(lines, size));
        assert(done.flatten() =~= Seq::<Seq<u8>>::empty());
    }
    while i < input.len()
        invariant
            size == batch_size >= 1,
            input.len() == lines.len(),
            0 <= spilled <= i <= input.len(),
            forall|k: int| i <= k < input.len() ==> (#[trigger] input[k])@ == lines[k],
            writer.limit() == batch_size,
            writer.buffered() == lines.subrange(spilled, i as int),
            writer.buffered().len() < batch_size,
            runs_of(lines, size) == done + runs_of(lines.skip(spilled), size),
            store@ == store_of(done),
            indexes(writer.offsets(), done),
        decreases input.len() - i,
    {
        let mut line: Vec<u8> = Vec::new();
        input.set_and_swap(i, &mut line);
        let full = writer.push(line);
        proof {
            assert(lines.subrange(spilled, i as int).push(lines[i as int]) =~= lines.subrange(
                spilled,
                i + 1,
            ));
        }
        i = i + 1;
        if full {
            let ghost offsets = writer.offsets();
            let position = store.len() as u64;
            let run = writer.spill(position).unwrap();
            let mut bytes = encode_run(&run);
            store.append(&mut bytes);
            proof {
                let rest = lines.skip(spilled);
                assert(rest.take(size) =~= lines.subrange(spilled, i as int));
                assert(rest.skip(size) =~= lines.skip(i as int));
                lemma_runs_step(rest, size);
                lemma_store_push(done, views(run@), offsets, position);
                assert(done + (seq![views(run@)] + runs_of(lines.skip(i as int), size)) =~= done.push(
                    views(run@),
                ) + runs_of(lines.skip(i as int), size));
                done = done.push(views(run@));
                spilled = i as int;
                assert(lines.subrange(spilled, i as int) =~= Seq::<Seq<u8>>::empty());
            }
        }
    }
    if writer.has_buffered() {
        let ghost offsets = writer.offsets();
        let position = store.len() as u64;
        let run = writer.spill(position).unwrap();
        let mut bytes = encode_run(&run);
        store.append(&mut bytes);
        proof {
            let rest = lines.skip(spilled);
            assert(rest =~= lines.subrange(spilled, i as int));
            lemma_runs_last(rest, size);
            lemma_store_push(done, views(run@), offsets, position);
            assert(done + seq![views(run@)] =~= done.push(views(run@)));
            done = done.push(views(run@));
        }
    } else {
        proof {
            lemma_runs_none(lines.skip(spilled), size);
            assert(done + Seq::<Seq<Seq<u8>>>::empty() =~= done);
        }
    }
    (store, writer.finish())
}

} // verus!
