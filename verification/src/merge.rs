//! The cursors of the merge phase and the frontier that orders them.
//!
//! A cursor stands for one run that is being read: it holds the record at
//! which the run stands and counts what may still be drawn from it. The
//! frontier holds the cursors of the runs that have not ended, and hands out
//! the one whose record is least. Reading the store is left to the caller: a
//! cursor is given each record that was read for it.

use vstd::multiset::Multiset;
use vstd::prelude::*;
use vstd::seq_lib::{to_multiset_build, to_multiset_len, to_multiset_remove, to_multiset_update};

use crate::record::{lemma_lex_le_total, lemma_lex_le_transitive, lex_le, record_le};

verus! {

/// Why a merge was given up.
#[derive(Clone, Copy, Debug, PartialEq, Eq)]
pub enum MergeError {
    /// The store ended inside a run that is not the last one, before the run
    /// had given as many records as every such run holds.
    CorruptStore { run: usize },
}

/// What a cursor stands for.
pub struct Cursor {
    /// The record at which the run stands.
    pub head: Seq<u8>,
    /// Which run is read, counted from 0 in the order in which the runs were written.
    pub run: usize,
    /// How many records may still be drawn from the run after `head`.
    pub left: usize,
    /// Whether the run is the last one of the store, which may end early.
    pub is_final: bool,
}

/// A cursor over one run.
#[derive(Debug)]
pub struct MergeStream {
    head: Vec<u8>,
    run: usize,
    left: usize,
    is_final: bool,
}

impl View for MergeStream {
    type V = Cursor;

    /// What the cursor stands for.
    closed spec fn view(&self) -> Cursor {
        Cursor { head: self.head@, run: self.run, left: self.left, is_final: self.is_final }
    }
}

impl MergeStream {
    /// The cursor of run `run`, of which at most `limit` records are read,
    /// from the first attempt to draw a record of it. A run that gives no
    /// record has no cursor; unless it is the last, its store is corrupt.
    pub fn new(run: usize, limit: usize, is_final: bool, first: Option<Vec<u8>>) -> (r: Result<
        Option<MergeStream>,
        MergeError,
    >)
        ensures
            match r {
                Ok(Some(stream)) => limit > 0 && first is Some && stream@ == (Cursor {
                    head: first->0@,
                    run,
                    left: (limit - 1) as usize,
                    is_final,
                }),
                Ok(None) => limit == 0 || (first is None && is_final),
                Err(e) => limit > 0 && first is None && !is_final && e == (MergeError::CorruptStore {
                    run,
                }),
            },
    {
        if limit == 0 {
            return Ok(None);
        }
        match first {
            Some(head) => Ok(Some(MergeStream { head, run, left: limit - 1, is_final })),
            None => if is_final {
                Ok(None)
            } else {
                Err(MergeError::CorruptStore { run })
            },
        }
    }

    /// The record at which the run stands.
    pub fn peek(&self) -> (head: &Vec<u8>)
        ensures
            head@ == self@.head,
    {
        &self.head
    }

    /// Whether this cursor comes before or with `other` in the frontier:
    /// cursors are ordered by the records at which they stand, and by
    /// nothing else.
    pub fn le(&self, other: &MergeStream) -> (r: bool)
        ensures
            r == lex_le(self@.head, other@.head),
    {
        record_le(&self.head, &other.head)
    }

    /// Which run the cursor reads.
    pub fn run(&self) -> (run: usize)
        ensures
            run == self@.run,
    {
        self.run
    }

    /// Whether another record is to be read from the run before the cursor
    /// can move on. Once the run has given all that it may hold, nothing more
    /// is read from it.
    pub fn wants_more(&self) -> (more: bool)
        ensures
            more == (self@.left > 0),
    {
        self.left > 0
    }

    /// Moves the cursor on: gives the record at which the run stood and, if
    /// the run goes on, the cursor that stands at `drawn`, the record that
    /// was read next. The run has ended when it has given all that it may
    /// hold, or when nothing more could be read; the latter is in order for
    /// the last run only.
    pub fn next(self, drawn: Option<Vec<u8>>) -> (r: Result<
        (Vec<u8>, Option<MergeStream>),
        MergeError,
    >)
        ensures
            match r {
                Ok((record, rest)) => record@ == self@.head && match rest {
                    Some(stream) => self@.left > 0 && drawn is Some && stream@ == (Cursor {
                        head: drawn->0@,
                        run: self@.run,
                        left: (self@.left - 1) as usize,
                        is_final: self@.is_final,
                    }),
                    None => self@.left == 0 || (drawn is None && self@.is_final),
                },
                Err(e) => self@.left > 0 && drawn is None && !self@.is_final && e == (
                MergeError::CorruptStore { run: self@.run }),
            },
    {
        if self.left == 0 {
            return Ok((self.head, None));
        }
        match drawn {
            Some(head) => {
                let rest = MergeStream {
                    head,
                    run: self.run,
                    left: self.left - 1,
                    is_final: self.is_final,
                };
                Ok((self.head, Some(rest)))
            },
            None => if self.is_final {
                Ok((self.head, None))
            } else {
                Err(MergeError::CorruptStore { run: self.run })
            },
        }
    }
}

/// What the cursors of a sequence stand for.
pub open spec fn cursors_of(streams: Seq<MergeStream>) -> Seq<Cursor> {
    Seq::new(streams.len(), |i: int| streams[i]@)
}

/// The place above `i` in the heap.
pub open spec fn parent(i: int) -> int {
    (i - 1) / 2
}

/// Each cursor but the first stands at a record that is no less than that
/// of the cursor above it.
pub open spec fn heap_ordered(c: Seq<Cursor>) -> bool {
    forall|j: int| 1 <= j < c.len() ==> lex_le(#[trigger] c[parent(j)].head, c[j].head)
}

/// The heap is in order but for the cursor at `i`, which may stand at a
/// record that is less than that of the cursor above it.
spec fn ordered_but_above(c: Seq<Cursor>, i: int) -> bool {
    &&& forall|j: int| 1 <= j < c.len() && j != i ==> lex_le(#[trigger] c[parent(j)].head, c[j].head)
    &&& i > 0 ==> forall|j: int|
        1 <= j < c.len() && parent(j) == i ==> lex_le(c[parent(i)].head, #[trigger] c[j].head)
}

/// The heap is in order but for the cursor at `i`, which may stand at a
/// record that is greater than those of the cursors below it.
spec fn ordered_but_below(c: Seq<Cursor>, i: int) -> bool {
    &&& forall|j: int|
        1 <= j < c.len() && parent(j) != i ==> lex_le(#[trigger] c[parent(j)].head, c[j].head)
    &&& i > 0 ==> forall|j: int|
        1 <= j < c.len() && parent(j) == i ==> lex_le(c[parent(i)].head, #[trigger] c[j].head)
}

/// In a heap that is in order no cursor stands at a record less than that
/// of the first.
proof fn lemma_first_is_least(c: Seq<Cursor>, i: int)
    requires
        heap_ordered(c),
        0 <= i < c.len(),
    ensures
        lex_le(c[0].head, c[i].head),
    decreases i,
{
    if i == 0 {
        crate::record::lemma_lex_le_reflexive(c[0].head);
    } else {
        lemma_first_is_least(c, parent(i));
        assert(lex_le(c[parent(i)].head, c[i].head));
        lemma_lex_le_transitive(c[0].head, c[parent(i)].head, c[i].head);
    }
}

/// Exchanging two cursors of a sequence leaves it with the same cursors.
proof fn lemma_swap_keeps_cursors(s: Seq<MergeStream>, t: Seq<MergeStream>, i: int, j: int)
    requires
        0 <= i < s.len(),
        0 <= j < s.len(),
        t == s.update(i, s[j]).update(j, s[i]),
    ensures
        cursors_of(t) == cursors_of(s).update(i, cursors_of(s)[j]).update(j, cursors_of(s)[i]),
        cursors_of(t).to_multiset() == cursors_of(s).to_multiset(),
{
    let c = cursors_of(s);
    let c1 = c.update(i, c[j]);
    let c2 = c1.update(j, c[i]);
    assert(cursors_of(t) =~= c2);
    to_multiset_update(c, i, c[j]);
    to_multiset_update(c1, j, c[i]);
    vstd::seq_lib::to_multiset_contains(c, c[i]);
    vstd::seq_lib::to_multiset_contains(c, c[j]);
    assert(c2.to_multiset() =~= c.to_multiset());
}

/// Exchanges the cursors at `i` and `j`.
fn swap_streams(heap: &mut Vec<MergeStream>, i: usize, j: usize)
    requires
        i < old(heap).len(),
        j < old(heap).len(),
    ensures
        final(heap)@ == old(heap)@.update(i as int, old(heap)@[j as int]).update(
            j as int,
            old(heap)@[i as int],
        ),
{
    if i != j {
        let mut held = MergeStream { head: Vec::new(), run: 0, left: 0, is_final: true };
        heap.set_and_swap(i, &mut held);
        heap.set_and_swap(j, &mut held);
        heap.set_and_swap(i, &mut held);
    }
    assert(heap@ =~= old(heap)@.update(i as int, old(heap)@[j as int]).update(
        j as int,
        old(heap)@[i as int],
    ));
}

/// Moves the cursor at `start` up until the cursor above it stands at no
/// greater a record.
fn sift_up(heap: &mut Vec<MergeStream>, start: usize)
    requires
        start < old(heap).len(),
        ordered_but_above(cursors_of(old(heap)@), start as int),
    ensures
        heap_ordered(cursors_of(final(heap)@)),
        cursors_of(final(heap)@).to_multiset() == cursors_of(old(heap)@).to_multiset(),
        final(heap).len() == old(heap).len(),
{
    let mut i = start;
    while i > 0
        invariant
            i < heap.len(),
            heap.len() == old(heap).len(),
            ordered_but_above(cursors_of(heap@), i as int),
            cursors_of(heap@).to_multiset() == cursors_of(old(heap)@).to_multiset(),
        ensures
            heap.len() == old(heap).len(),
            heap_ordered(cursors_of(heap@)),
            cursors_of(heap@).to_multiset() == cursors_of(old(heap)@).to_multiset(),
        decreases i,
    {
        let above = (i - 1) / 2;
        let ghost c = cursors_of(heap@);
        if heap[above].le(&heap[i]) {
            proof {
                assert(c[above as int] == heap@[above as int]@);
                assert(c[i as int] == heap@[i as int]@);
            }
            break;
        }
        let ghost before = heap@;
        swap_streams(heap, above, i);
        proof {
            lemma_swap_keeps_cursors(before, heap@, above as int, i as int);
            let d = cursors_of(heap@);
            assert(c[above as int] == before[above as int]@);
            assert(c[i as int] == before[i as int]@);
            lemma_lex_le_total(c[above as int].head, c[i as int].head);
            assert forall|j: int| 1 <= j < d.len() && j != above implies lex_le(
                #[trigger] d[parent(j)].head,
                d[j].head,
            ) by {
                if j == i {
                } else if parent(j) == i {
                    assert(lex_le(c[parent(i as int)].head, c[j].head));
                } else if parent(j) == above {
                    assert(lex_le(c[parent(j)].head, c[j].head));
                    lemma_lex_le_transitive(c[i as int].head, c[above as int].head, c[j].head);
                } else {
                    assert(lex_le(c[parent(j)].head, c[j].head));
                }
            }
            if above > 0 {
                assert forall|j: int| 1 <= j < d.len() && parent(j) == above implies lex_le(
                    d[parent(above as int)].head,
                    #[trigger] d[j].head,
                ) by {
                    assert(lex_le(c[parent(above as int)].head, c[above as int].head));
                    if j != i {
                        assert(lex_le(c[parent(j)].head, c[j].head));
                        lemma_lex_le_transitive(
                            c[parent(above as int)].head,
                            c[above as int].head,
                            c[j].head,
                        );
                    }
                }
            }
        }
        i = above;
    }
}

/// Moves the cursor at `start` down until the cursors below it stand at no
/// lesser a record.
fn sift_down(heap: &mut Vec<MergeStream>, start: usize)
    requires
        start < old(heap).len(),
        ordered_but_below(cursors_of(old(heap)@), start as int),
    ensures
        heap_ordered(cursors_of(final(heap)@)),
        cursors_of(final(heap)@).to_multiset() == cursors_of(old(heap)@).to_multiset(),
        final(heap).len() == old(heap).len(),
{
    let n = heap.len();
    let mut i = start;
    while i < n / 2
        invariant
            i < n,
            n == heap.len(),
            heap.len() == old(heap).len(),
            ordered_but_below(cursors_of(heap@), i as int),
            cursors_of(heap@).to_multiset() == cursors_of(old(heap)@).to_multiset(),
        ensures
            heap.len() == old(heap).len(),
            heap_ordered(cursors_of(heap@)),
            cursors_of(heap@).to_multiset() == cursors_of(old(heap)@).to_multiset(),
        decreases n - i,
    {
        let left = 2 * i + 1;
        let right = left + 1;
        let ghost c = cursors_of(heap@);
        let mut least = left;
        if right < n && !heap[left].le(&heap[right]) {
            least = right;
        }
        proof {
            assert(c[left as int] == heap@[left as int]@);
            assert(c[i as int] == heap@[i as int]@);
            if right < n {
                assert(c[right as int] == heap@[right as int]@);
                lemma_lex_le_total(c[left as int].head, c[right as int].head);
            }
        }
        if heap[i].le(&heap[least]) {
            proof {
                assert forall|j: int| 1 <= j < c.len() implies lex_le(
                    #[trigger] c[parent(j)].head,
                    c[j].head,
                ) by {
                    if parent(j) == i {
                        assert(j == left || j == right);
                        if j != least {
                            lemma_lex_le_transitive(
                                c[i as int].head,
                                c[least as int].head,
                                c[j].head,
                            );
                        }
                    }
                }
            }
            break;
        }
        let ghost before = heap@;
        swap_streams(heap, i, least);
        proof {
            lemma_swap_keeps_cursors(before, heap@, i as int, least as int);
            let d = cursors_of(heap@);
            lemma_lex_le_total(c[i as int].head, c[least as int].head);
            assert forall|j: int| 1 <= j < d.len() && parent(j) != least implies lex_le(
                #[trigger] d[parent(j)].head,
                d[j].head,
            ) by {
                if j == least {
                } else if parent(j) == i {
                    assert(j == left || j == right);
                } else if j == i {
                    assert(lex_le(c[parent(i as int)].head, c[least as int].head));
                } else {
                    assert(lex_le(c[parent(j)].head, c[j].head));
                }
            }
            assert forall|j: int| 1 <= j < d.len() && parent(j) == least implies lex_le(
                d[parent(least as int)].head,
                #[trigger] d[j].head,
            ) by {
                assert(lex_le(c[parent(j)].head, c[j].head));
            }
        }
        i = least;
    }
    proof {
        let c = cursors_of(heap@);
        if i >= n / 2 {
            assert forall|j: int| 1 <= j < c.len() implies lex_le(
                #[trigger] c[parent(j)].head,
                c[j].head,
            ) by {
                assert(parent(j) != i);
            }
        }
    }
}

/// The cursors of the runs that have not ended, ordered so that the one
/// whose record is least is at hand.
pub struct MergeFrontier {
    heap: Vec<MergeStream>,
}

impl MergeFrontier {
    /// The cursors are kept as a heap that is in order.
    #[verifier::type_invariant]
    spec fn in_order(self) -> bool {
        heap_ordered(cursors_of(self.heap@))
    }

    /// What the frontier holds: each cursor as often as it was put in and not taken out.
    pub closed spec fn cursors(&self) -> Multiset<Cursor> {
        cursors_of(self.heap@).to_multiset()
    }

    /// A frontier that holds no cursor.
    pub fn new() -> (frontier: Self)
        ensures
            frontier.cursors() == Multiset::<Cursor>::empty(),
    {
        let frontier = MergeFrontier { heap: Vec::new() };
        proof {
            assert(cursors_of(frontier.heap@) =~= Seq::<Cursor>::empty());
            to_multiset_len(cursors_of(frontier.heap@));
            assert(frontier.cursors() =~= Multiset::<Cursor>::empty());
        }
        frontier
    }

    /// How many cursors the frontier holds.
    pub fn len(&self) -> (n: usize)
        ensures
            n == self.cursors().len(),
    {
        proof {
            to_multiset_len(cursors_of(self.heap@));
        }
        self.heap.len()
    }

    /// Whether the frontier holds no cursor.
    pub fn is_empty(&self) -> (empty: bool)
        ensures
            empty == (self.cursors().len() == 0),
    {
        proof {
            to_multiset_len(cursors_of(self.heap@));
        }
        self.heap.len() == 0
    }

    /// Puts a cursor in.
    pub fn push(&mut self, stream: MergeStream)
        ensures
            final(self).cursors() == old(self).cursors().insert(stream@),
    {
        proof {
            use_type_invariant(&*self);
        }
        let mut heap: Vec<MergeStream> = Vec::new();
        core::mem::swap(&mut self.heap, &mut heap);
        let ghost before = cursors_of(heap@);
        heap.push(stream);
        proof {
            assert(cursors_of(heap@) =~= before.push(stream@));
            to_multiset_build(before, stream@);
            let c = cursors_of(heap@);
            assert forall|j: int| 1 <= j < c.len() && j != c.len() - 1 implies lex_le(
                #[trigger] c[parent(j)].head,
                c[j].head,
            ) by {
                assert(lex_le(before[parent(j)].head, before[j].head));
            }
        }
        let last = heap.len() - 1;
        sift_up(&mut heap, last);
        self.heap = heap;
    }

    /// Takes out a cursor whose record is least among those held, if any is
    /// held. Which of several cursors at equal records is taken is left open.
    pub fn pop(&mut self) -> (least: Option<MergeStream>)
        ensures
            match least {
                Some(stream) => old(self).cursors().contains(stream@) && final(self).cursors()
                    == old(self).cursors().remove(stream@) && forall|c: Cursor|
                    old(self).cursors().contains(c) ==> lex_le(stream@.head, #[trigger] c.head),
                None => old(self).cursors().len() == 0 && final(self).cursors() == old(
                    self,
                ).cursors(),
            },
    {
        proof {
            use_type_invariant(&*self);
            to_multiset_len(cursors_of(self.heap@));
        }
        if self.heap.len() == 0 {
            return None;
        }
        let mut heap: Vec<MergeStream> = Vec::new();
        core::mem::swap(&mut self.heap, &mut heap);
        let ghost before = cursors_of(heap@);
        let last = heap.len() - 1;
        let ghost full = heap@;
        swap_streams(&mut heap, 0, last);
        let ghost swapped = heap@;
        let least = heap.pop().unwrap();
        proof {
            lemma_swap_keeps_cursors(full, swapped, 0, last as int);
            let s = cursors_of(swapped);
            assert(cursors_of(heap@) =~= s.remove(last as int));
            to_multiset_remove(s, last as int);
            assert(least@ == before[0]);
            vstd::seq_lib::to_multiset_contains(before, least@);
            assert forall|c: Cursor| before.to_multiset().contains(c) implies lex_le(
                least@.head,
                #[trigger] c.head,
            ) by {
                vstd::seq_lib::to_multiset_contains(before, c);
                let i = choose|i: int| 0 <= i < before.len() && before[i] == c;
                lemma_first_is_least(before, i);
            }
            let c = cursors_of(heap@);
            assert forall|j: int| 1 <= j < c.len() && parent(j) != 0 implies lex_le(
                #[trigger] c[parent(j)].head,
                c[j].head,
            ) by {
                assert(lex_le(before[parent(j)].head, before[j].head));
            }
        }
        if heap.len() > 0 {
            sift_down(&mut heap, 0);
        }
        self.heap = heap;
        Some(least)
    }
}

} // verus!
