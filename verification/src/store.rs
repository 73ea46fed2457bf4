//! The format of the intermediate store, and a reader over a store that is
//! held in memory. A store is the records of its runs one after another,
//! each followed by a newline, and nothing else: where a run begins is known
//! to the run index only.

use vstd::prelude::*;
use vstd::slice::{slice_subrange, slice_to_vec};

verus! {

/// The byte that ends a record in the store.
pub const NEWLINE: u8 = 10;

/// A record as it stands in the store.
pub open spec fn frame(record: Seq<u8>) -> Seq<u8> {
    record.push(NEWLINE)
}

/// Records as they stand in the store, one after another.
pub open spec fn encode(records: Seq<Seq<u8>>) -> Seq<u8>
    decreases records.len(),
{
    if records.len() == 0 {
        Seq::empty()
    } else {
        frame(records[0]) + encode(records.drop_first())
    }
}

/// Where the first line of `bytes` ends: the place of the first newline, or
/// the length of `bytes` if there is none.
pub open spec fn line_end(bytes: Seq<u8>) -> int
    decreases bytes.len(),
{
    if bytes.len() == 0 || bytes[0] == NEWLINE {
        0
    } else {
        1 + line_end(bytes.drop_first())
    }
}

/// The records that `bytes` hold. Each newline ends a record; bytes after
/// the last newline are a record too.
pub open spec fn lines(bytes: Seq<u8>) -> Seq<Seq<u8>>
    decreases bytes.len(),
{
    if bytes.len() == 0 {
        Seq::empty()
    } else {
        let end = line_end(bytes);
        if end < bytes.len() {
            proof {
                lemma_line_end(bytes);
            }
            seq![bytes.take(end)] + lines(bytes.skip(end + 1))
        } else {
            seq![bytes]
        }
    }
}

/// The records that a reader finds in `store` from `offset` on. Past the end
/// of the store there is nothing to read.
pub open spec fn records_from(store: Seq<u8>, offset: int) -> Seq<Seq<u8>> {
    if 0 <= offset <= store.len() {
        lines(store.skip(offset))
    } else {
        Seq::empty()
    }
}

/// The record holds no newline, so that it is one line in the store.
pub open spec fn newline_free(record: Seq<u8>) -> bool {
    forall|i: int| 0 <= i < record.len() ==> record[i] != NEWLINE
}

/// None of the records holds a newline.
pub open spec fn all_newline_free(records: Seq<Seq<u8>>) -> bool {
    forall|i: int| 0 <= i < records.len() ==> newline_free(#[trigger] records[i])
}

/// The first line ends inside the bytes or at their end, no newline stands
/// before its end, and one stands there unless the bytes end there.
pub proof fn lemma_line_end(bytes: Seq<u8>)
    ensures
        0 <= line_end(bytes) <= bytes.len(),
        forall|i: int| 0 <= i < line_end(bytes) ==> bytes[i] != NEWLINE,
        line_end(bytes) < bytes.len() ==> bytes[line_end(bytes)] == NEWLINE,
    decreases bytes.len(),
{
    if bytes.len() == 0 || bytes[0] == NEWLINE {
    } else {
        let tail = bytes.drop_first();
        lemma_line_end(tail);
        assert forall|i: int| 0 <= i < line_end(bytes) implies bytes[i] != NEWLINE by {
            if i > 0 {
                assert(bytes[i] == tail[i - 1]);
            }
        }
        assert(line_end(bytes) < bytes.len() ==> bytes[line_end(bytes)] == tail[line_end(tail)]);
    }
}

/// The first line ends at `end` if no newline stands before `end` and one
/// stands there, or the bytes end there.
pub proof fn lemma_line_end_is(bytes: Seq<u8>, end: int)
    requires
        0 <= end <= bytes.len(),
        forall|i: int| 0 <= i < end ==> bytes[i] != NEWLINE,
        end == bytes.len() || bytes[end] == NEWLINE,
    ensures
        line_end(bytes) == end,
    decreases bytes.len(),
{
    if end > 0 {
        let tail = bytes.drop_first();
        assert forall|i: int| 0 <= i < end - 1 implies tail[i] != NEWLINE by {
            assert(tail[i] == bytes[i + 1]);
        }
        lemma_line_end_is(tail, end - 1);
    }
}

/// Records written after records stand in the store behind them.
pub proof fn lemma_encode_add(a: Seq<Seq<u8>>, b: Seq<Seq<u8>>)
    ensures
        encode(a + b) == encode(a) + encode(b),
    decreases a.len(),
{
    if a.len() == 0 {
        assert(a + b =~= b);
        assert(encode(a) + encode(b) =~= encode(b));
    } else {
        lemma_encode_add(a.drop_first(), b);
        assert((a + b).drop_first() =~= a.drop_first() + b);
        assert(encode(a + b) =~= encode(a) + encode(b));
    }
}

/// One more record is written as its frame, behind what was written.
pub proof fn lemma_encode_push(records: Seq<Seq<u8>>, record: Seq<u8>)
    ensures
        encode(records.push(record)) == encode(records) + frame(record),
{
    lemma_encode_add(records, seq![record]);
    assert(records.push(record) =~= records + seq![record]);
    let one = seq![record];
    assert(one.drop_first() =~= Seq::<Seq<u8>>::empty());
    assert(encode(one.drop_first()) =~= Seq::<u8>::empty());
    assert(encode(one) =~= frame(record));
}

/// A record without a newline, written to the store, is read back as it
/// was, and what follows it is read as if it stood alone.
pub proof fn lemma_lines_of_framed(record: Seq<u8>, rest: Seq<u8>)
    requires
        newline_free(record),
    ensures
        lines(frame(record) + rest) == seq![record] + lines(rest),
{
    let bytes = frame(record) + rest;
    let end = record.len() as int;
    assert forall|i: int| 0 <= i < end implies bytes[i] != NEWLINE by {
        assert(bytes[i] == record[i]);
    }
    assert(bytes[end] == NEWLINE);
    lemma_line_end_is(bytes, end);
    assert(bytes.take(end) =~= record);
    assert(bytes.skip(end + 1) =~= rest);
}

/// Records without newlines, written to the store one after another, are
/// read back as they were.
pub proof fn lemma_lines_of_encoded(records: Seq<Seq<u8>>, rest: Seq<u8>)
    requires
        all_newline_free(records),
    ensures
        lines(encode(records) + rest) == records + lines(rest),
    decreases records.len(),
{
    if records.len() == 0 {
        assert(encode(records) + rest =~= rest);
        assert(records + lines(rest) =~= lines(rest));
    } else {
        let tail = records.drop_first();
        assert(all_newline_free(tail)) by {
            assert forall|i: int| 0 <= i < tail.len() implies newline_free(#[trigger] tail[i]) by {
                assert(tail[i] == records[i + 1]);
            }
        }
        lemma_lines_of_encoded(tail, rest);
        assert(newline_free(records[0]));
        lemma_lines_of_framed(records[0], encode(tail) + rest);
        assert(encode(records) + rest =~= frame(records[0]) + (encode(tail) + rest));
        assert(records + lines(rest) =~= seq![records[0]] + (tail + lines(rest)));
    }
}

/// The lines that bytes hold are without newlines.
pub proof fn lemma_lines_newline_free(bytes: Seq<u8>)
    ensures
        all_newline_free(lines(bytes)),
    decreases bytes.len(),
{
    if bytes.len() > 0 {
        let end = line_end(bytes);
        lemma_line_end(bytes);
        if end < bytes.len() {
            let rest = lines(bytes.skip(end + 1));
            lemma_lines_newline_free(bytes.skip(end + 1));
            assert forall|i: int| 0 <= i < lines(bytes).len() implies newline_free(
                #[trigger] lines(bytes)[i],
            ) by {
                if i > 0 {
                    assert(lines(bytes)[i] == rest[i - 1]);
                }
            }
        }
    }
}

/// Whether a record holds no newline.
pub fn is_newline_free(record: &Vec<u8>) -> (free: bool)
    ensures
        free == newline_free(record@),
{
    let mut i: usize = 0;
    while i < record.len()
        invariant
            i <= record.len(),
            forall|k: int| 0 <= k < i ==> record[k] != NEWLINE,
        decreases record.len() - i,
    {
        if record[i] == NEWLINE {
            return false;
        }
        i = i + 1;
    }
    true
}

/// A line without the newline that ends it, if one does.
pub open spec fn unframed(line: Seq<u8>) -> Seq<u8> {
    if line.len() > 0 && line.last() == NEWLINE {
        line.drop_last()
    } else {
        line
    }
}

/// Takes the newline off the end of a line as it was read from the store.
/// The last line of a store may lack one, and is left as it is.
pub fn unframe(line: Vec<u8>) -> (record: Vec<u8>)
    ensures
        record@ == unframed(line@),
{
    let mut line = line;
    let n = line.len();
    if n > 0 && line[n - 1] == NEWLINE {
        line.pop();
    }
    line
}

/// A record comes out of its frame as it went in.
pub proof fn lemma_unframe_frame(record: Seq<u8>)
    ensures
        unframed(frame(record)) == record,
{
    assert(frame(record).drop_last() =~= record);
}

/// Appends a record to a store held in memory.
pub fn write_record(store: &mut Vec<u8>, record: &Vec<u8>)
    ensures
        final(store)@ == old(store)@ + frame(record@),
{
    let mut copy = slice_to_vec(record.as_slice());
    store.append(&mut copy);
    store.push(NEWLINE);
    assert(store@ =~= old(store)@ + frame(record@));
}

/// The bytes of a run, as they are appended to the store.
pub fn encode_run(run: &Vec<Vec<u8>>) -> (bytes: Vec<u8>)
    ensures
        bytes@ == encode(crate::record::views(run@)),
{
    let mut bytes: Vec<u8> = Vec::new();
    let mut i: usize = 0;
    let ghost records = crate::record::views(run@);
    while i < run.len()
        invariant
            i <= run.len(),
            records == crate::record::views(run@),
            bytes@ == encode(records.take(i as int)),
        decreases run.len() - i,
    {
        proof {
            lemma_encode_push(records.take(i as int), records[i as int]);
            assert(records.take(i + 1) =~= records.take(i as int).push(records[i as int]));
        }
        write_record(&mut bytes, &run[i]);
        i = i + 1;
    }
    proof {
        assert(records.take(i as int) =~= records);
    }
    bytes
}

/// A forward-only cursor over the records of a store that is held in memory.
#[derive(Clone, Copy)]
pub struct StoreReader<'a> {
    bytes: &'a Vec<u8>,
    at: usize,
}

impl<'a> StoreReader<'a> {
    /// The records that are still to come.
    pub closed spec fn pending(&self) -> Seq<Seq<u8>> {
        records_from(self.bytes@, self.at as int)
    }

    /// A reader that stands at `offset`. An offset past the end of the store
    /// gives a reader with nothing to read.
    pub fn open(store: &'a Vec<u8>, offset: u64) -> (reader: Self)
        ensures
            reader.pending() == records_from(store@, offset as int),
    {
        let at = if offset >= store.len() as u64 {
            store.len()
        } else {
            offset as usize
        };
        proof {
            if offset > store.len() {
                assert(store@.skip(store.len() as int).len() == 0);
            }
        }
        StoreReader { bytes: store, at }
    }

    /// Reads the next record. `None` at the end of the store.
    pub fn read_record(&mut self) -> (record: Option<Vec<u8>>)
        ensures
            match record {
                Some(r) => old(self).pending().len() > 0 && r@ == old(self).pending()[0]
                    && final(self).pending() == old(self).pending().drop_first(),
                None => old(self).pending().len() == 0 && final(self).pending().len() == 0,
            },
    {
        let length = self.bytes.len();
        if self.at >= length {
            proof {
                if self.at == length {
                    assert(self.bytes@.skip(length as int).len() == 0);
                }
            }
            return None;
        }
        let start = self.at;
        let mut end = start;
        while end < length && self.bytes[end] != NEWLINE
            invariant
                length == self.bytes.len(),
                start <= end <= length,
                forall|k: int| start <= k < end ==> self.bytes[k] != NEWLINE,
            decreases length - end,
        {
            end = end + 1;
        }
        let record = slice_to_vec(slice_subrange(self.bytes.as_slice(), start, end));
        proof {
            let rest = self.bytes@.skip(start as int);
            assert forall|i: int| 0 <= i < end - start implies rest[i] != NEWLINE by {
                assert(rest[i] == self.bytes[start + i]);
            }
            lemma_line_end_is(rest, end - start);
            assert(rest.take(end - start) =~= record@);
            if end < length {
                assert(rest.skip(end - start + 1) =~= self.bytes@.skip(end + 1));
                assert((seq![record@] + lines(rest.skip(end - start + 1))).drop_first() =~= lines(
                    rest.skip(end - start + 1),
                ));
            } else {
                assert(rest =~= record@);
                assert(self.bytes@.skip(length as int).len() == 0);
                assert(seq![rest].drop_first() =~= Seq::<Seq<u8>>::empty());
            }
        }
        self.at = if end < length {
            end + 1
        } else {
            end
        };
        Some(record)
    }
}

} // verus!
