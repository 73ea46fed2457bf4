//! Forming runs. Lines are gathered into a batch; a batch that has reached
//! its size is sorted and handed over to be appended to the intermediate
//! store, and the place at which it begins is entered in the run index.

use vstd::prelude::*;

use crate::record::{sort, views};
use crate::sorting::{lemma_views_push, sort_records};

verus! {

/// Where each run begins in the intermediate store, in the order in which
/// the runs were written, and how many records a run holds at most. Every
/// run but the last holds exactly that many.
#[derive(Debug, PartialEq, Eq)]
pub struct RunIndex {
    pub offsets: Vec<u64>,
    pub limit: usize,
}

impl RunIndex {
    /// How many runs there are.
    pub fn len(&self) -> (n: usize)
        ensures
            n == self.offsets@.len(),
    {
        self.offsets.len()
    }

    /// Where run `run` begins.
    pub fn offset(&self, run: usize) -> (offset: u64)
        requires
            run < self.offsets@.len(),
        ensures
            offset == self.offsets@[run as int],
    {
        self.offsets[run]
    }

    /// Whether run `run` is the last one, the only one that the end of the
    /// store may cut short.
    pub fn is_final(&self, run: usize) -> (last: bool)
        ensures
            last == (run + 1 == self.offsets@.len()),
    {
        self.offsets.len() > 0 && run == self.offsets.len() - 1
    }
}

/// Gathers lines into batches of a fixed size and turns each batch into a run.
pub struct RunWriter {
    limit: usize,
    batch: Vec<Vec<u8>>,
    offsets: Vec<u64>,
}

impl RunWriter {
    /// How many records a run holds at most.
    pub closed spec fn limit(&self) -> usize {
        self.limit
    }

    /// The lines that were taken in and not yet made a run, in the order in
    /// which they came.
    pub closed spec fn buffered(&self) -> Seq<Seq<u8>> {
        views(self.batch@)
    }

    /// Where the runs made so far begin.
    pub closed spec fn offsets(&self) -> Seq<u64> {
        self.offsets@
    }

    /// A writer of runs of `batch_size` records that has taken in nothing.
    pub fn new(batch_size: usize) -> (writer: Self)
        requires
            batch_size >= 1,
        ensures
            writer.limit() == batch_size,
            writer.buffered() == Seq::<Seq<u8>>::empty(),
            writer.offsets() == Seq::<u64>::empty(),
    {
        let writer = RunWriter { limit: batch_size, batch: Vec::new(), offsets: Vec::new() };
        assert(writer.buffered() =~= Seq::<Seq<u8>>::empty());
        writer
    }

    /// Takes in a line. Says whether the batch has reached its size, so that
    /// it is to be spilled before the next line is taken in.
    pub fn push(&mut self, line: Vec<u8>) -> (full: bool)
        ensures
            final(self).buffered() == old(self).buffered().push(line@),
            final(self).limit() == old(self).limit(),
            final(self).offsets() == old(self).offsets(),
            full == (final(self).buffered().len() >= final(self).limit()),
    {
        proof {
            lemma_views_push(self.batch@, line);
        }
        self.batch.push(line);
        self.batch.len() >= self.limit
    }

    /// Whether the batch has reached its size.
    pub fn is_full(&self) -> (full: bool)
        ensures
            full == (self.buffered().len() >= self.limit()),
    {
        self.batch.len() >= self.limit
    }

    /// Whether lines were taken in that are not yet part of a run.
    pub fn has_buffered(&self) -> (some: bool)
        ensures
            some == (self.buffered().len() > 0),
    {
        self.batch.len() > 0
    }

    /// Makes a run of the lines taken in since the last one: gives them in
    /// sorted order, to be appended to the store at `position`, which is
    /// entered in the index as the place where the run begins. With no line
    /// taken in there is no run, and nothing is entered.
    pub fn spill(&mut self, position: u64) -> (run: Option<Vec<Vec<u8>>>)
        ensures
            final(self).limit() == old(self).limit(),
            match run {
                Some(records) => old(self).buffered().len() > 0 && views(records@) == sort(
                    old(self).buffered(),
                ) && final(self).buffered() == Seq::<Seq<u8>>::empty() && final(self).offsets()
                    == old(self).offsets().push(position),
                None => old(self).buffered().len() == 0 && final(self).buffered() == old(
                    self,
                ).buffered() && final(self).offsets() == old(self).offsets(),
            },
    {
        if self.batch.len() == 0 {
            return None;
        }
        let mut batch: Vec<Vec<u8>> = Vec::new();
        core::mem::swap(&mut self.batch, &mut batch);
        assert(self.buffered() =~= Seq::<Seq<u8>>::empty());
        let run = sort_records(batch);
        self.offsets.push(position);
        Some(run)
    }

    /// The index of the runs that were made. Lines taken in since the last
    /// run are in none of them.
    pub fn finish(self) -> (index: RunIndex)
        ensures
            index.offsets@ == self.offsets(),
            index.limit == self.limit(),
    {
        RunIndex { offsets: self.offsets, limit: self.limit }
    }
}

} // verus!
