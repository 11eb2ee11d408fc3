//! The mathematical model of an arena: its live records in reservation order,
//! and what each operation does to them.
use vstd::prelude::*;
use crate::codec::length_fits;
use crate::layout::align_up;

verus! {

/// One live record: where its header word sits, its payload length, its
/// status bit, and the bytes of its payload.
pub struct RecordView {
    pub start: nat,
    pub len: nat,
    pub done: bool,
    pub payload: Seq<u8>,
}

/// An arena as its users see it. `records` holds the records that are not yet
/// reclaimed, oldest first; the one at index `i` was the `first + i`-th record
/// ever reserved. Records below `read_count` have been handed to readers,
/// records below `write_count` have been made visible, and the rest are still
/// being written. `reservation` is where the next record's header goes.
pub struct ArenaView {
    pub capacity: nat,
    pub reservation: nat,
    pub first: nat,
    pub records: Seq<RecordView>,
    pub read_count: nat,
    pub write_count: nat,
}

/// Bytes taken by a record of `len` payload bytes: its header word and its
/// payload rounded up to whole words.
pub open spec fn span(len: nat) -> nat {
    (8 + align_up(len as int)) as nat
}

/// Bytes taken by the first `k` records of `s`.
#[verifier::opaque]
pub open spec fn prefix_span(s: Seq<RecordView>, k: int) -> nat
    decreases k,
{
    if k <= 0 {
        0
    } else {
        prefix_span(s, k - 1) + span(s[k - 1].len)
    }
}

/// Folds an offset that has passed the logical capacity back by one lap.
pub open spec fn fold(x: int, capacity: int) -> int {
    if x >= capacity {
        x - capacity
    } else {
        x
    }
}

impl RecordView {
    /// The same record with its status bit set to `done`.
    pub open spec fn with_done(self, done: bool) -> RecordView {
        RecordView { done, ..self }
    }
}

impl ArenaView {
    /// Bytes held by records that are not yet reclaimed.
    pub open spec fn used(self) -> nat {
        prefix_span(self.records, self.records.len() as int)
    }

    /// Whether `h` is the claim on record `h.0 - first`, still being written.
    pub open spec fn is_reserved(self, h: (nat, nat, nat)) -> bool {
        let i = h.0 - self.first;
        &&& self.first <= h.0
        &&& self.write_count <= i < self.records.len()
        &&& self.records[i].start == h.1
        &&& self.records[i].len == h.2
        &&& !self.records[i].done
    }

    /// Whether `v` is a record handed to a reader and not yet given back.
    pub open spec fn is_lent(self, v: (nat, nat, nat)) -> bool {
        let i = v.0 - self.first;
        &&& self.first <= v.0
        &&& 0 <= i < self.read_count
        &&& self.records[i].start == v.1
        &&& self.records[i].len == v.2
        &&& !self.records[i].done
    }

    /// What holds between two operations, but for the two frontiers, which the
    /// end of a handle's life may leave behind a finished record: a capacity of
    /// whole words whose double span is addressable, word-aligned positions
    /// within one lap, no more than a lap in use, and the read frontier
    /// not past the write frontier, with no visible record marked finished.
    pub open spec fn shape(self) -> bool {
        &&& 8 <= self.capacity
        &&& self.capacity % 8 == 0
        &&& 2 * self.capacity + 16 <= usize::MAX
        &&& self.reservation < self.capacity
        &&& self.reservation % 8 == 0
        &&& self.used() <= self.capacity
        &&& self.read_count <= self.write_count <= self.records.len()
        &&& forall|i: int|
            0 <= i < self.records.len() ==> {
                let r = #[trigger] self.records[i];
                &&& r.start < self.capacity
                &&& r.start % 8 == 0
                &&& length_fits(r.len as int)
                &&& r.payload.len() == r.len
            }
        &&& forall|i: int|
            self.read_count <= i < self.write_count ==> !(#[trigger] self.records[i]).done
    }

    /// What holds of every arena: its shape, with each frontier stopped at a
    /// record whose status bit is clear.
    pub open spec fn wf(self) -> bool {
        &&& self.shape()
        &&& self.write_count < self.records.len() ==> !self.records[self.write_count as int].done
        &&& 0 < self.read_count ==> !self.records[0].done
    }

    /// Whether a request for `len` payload bytes is admitted: its length fits a
    /// header word and the record fits in what is left of the lap.
    pub open spec fn admits(self, len: nat) -> bool {
        &&& length_fits(len as int)
        &&& self.used() + span(len) <= self.capacity
    }

    /// The arena after a record of `len` bytes is reserved; its payload holds
    /// `initial`, whatever the store held there before.
    pub open spec fn reserved(self, len: nat, initial: Seq<u8>) -> ArenaView {
        ArenaView {
            reservation: fold(self.reservation + span(len) as int, self.capacity as int) as nat,
            records: self.records.push(
                RecordView { start: self.reservation, len, done: false, payload: initial },
            ),
            ..self
        }
    }

    /// The arena after `bytes` are written into the payload of record `i`
    /// from byte `offset` on.
    pub open spec fn written(self, i: int, offset: int, bytes: Seq<u8>) -> ArenaView {
        let r = self.records[i];
        let p = r.payload.subrange(0, offset) + bytes + r.payload.subrange(
            offset + bytes.len(),
            r.len as int,
        );
        ArenaView { records: self.records.update(i, RecordView { payload: p, ..r }), ..self }
    }

    /// Moves the write frontier over every finished record that follows it,
    /// clearing their status bits.
    pub open spec fn commit(self) -> ArenaView
        decreases self.records.len() - self.write_count,
    {
        if self.write_count < self.records.len() && self.records[self.write_count as int].done {
            let w = self.write_count as int;
            ArenaView {
                records: self.records.update(w, self.records[w].with_done(false)),
                write_count: (w + 1) as nat,
                ..self
            }.commit()
        } else {
            self
        }
    }

    /// The arena after the writer of record `i` finishes.
    pub open spec fn finish_write(self, i: int) -> ArenaView {
        ArenaView {
            records: self.records.update(i, self.records[i].with_done(true)),
            ..self
        }.commit()
    }

    /// The arena after the oldest visible record is handed to a reader.
    pub open spec fn consumed(self) -> ArenaView {
        ArenaView { read_count: self.read_count + 1, ..self }
    }

    /// Drops every released record at the front of the arena, freeing its space.
    pub open spec fn reclaim(self) -> ArenaView
        decreases self.read_count,
    {
        if 0 < self.read_count && 0 < self.records.len() && self.records[0].done {
            ArenaView {
                first: self.first + 1,
                records: self.records.drop_first(),
                read_count: (self.read_count - 1) as nat,
                write_count: (self.write_count - 1) as nat,
                ..self
            }.reclaim()
        } else {
            self
        }
    }

    /// The arena after the reader of record `i` finishes.
    pub open spec fn finish_read(self, i: int) -> ArenaView {
        ArenaView {
            records: self.records.update(i, self.records[i].with_done(true)),
            ..self
        }.reclaim()
    }
}

/// Prefix spans grow with the prefix, by at least the span of each record added.
pub proof fn lemma_prefix_span_mono(s: Seq<RecordView>, i: int, j: int)
    requires
        0 <= i <= j <= s.len(),
    ensures
        prefix_span(s, i) <= prefix_span(s, j),
        i < j ==> prefix_span(s, i) + span(s[i].len) <= prefix_span(s, j),
    decreases j - i,
{
    reveal(prefix_span);
    if i < j {
        lemma_prefix_span_mono(s, i, j - 1);
    }
}

/// Adding one record to a prefix adds its span.
pub proof fn lemma_prefix_span_next(s: Seq<RecordView>, k: int)
    requires
        0 <= k < s.len(),
    ensures
        prefix_span(s, k + 1) == prefix_span(s, k) + span(s[k].len),
{
    reveal(prefix_span);
}

/// Prefix spans are whole numbers of words.
pub proof fn lemma_prefix_span_aligned(s: Seq<RecordView>, k: int)
    requires
        0 <= k <= s.len(),
    ensures
        prefix_span(s, k) % 8 == 0,
    decreases k,
{
    reveal(prefix_span);
    if k > 0 {
        lemma_prefix_span_aligned(s, k - 1);
    }
}

/// Prefix spans depend on the records' lengths alone.
pub proof fn lemma_prefix_span_lens(s1: Seq<RecordView>, s2: Seq<RecordView>, k: int)
    requires
        0 <= k <= s1.len(),
        k <= s2.len(),
        forall|j: int| 0 <= j < k ==> s1[j].len == s2[j].len,
    ensures
        prefix_span(s1, k) == prefix_span(s2, k),
    decreases k,
{
    reveal(prefix_span);
    if k > 0 {
        lemma_prefix_span_lens(s1, s2, k - 1);
    }
}

/// Dropping the first `k` records takes their span off every later prefix.
pub proof fn lemma_prefix_span_drop(s: Seq<RecordView>, k: int, i: int)
    requires
        0 <= k,
        0 <= i,
        k + i <= s.len(),
    ensures
        prefix_span(s.subrange(k, s.len() as int), i) + prefix_span(s, k) == prefix_span(s, k + i),
    decreases i,
{
    reveal(prefix_span);
    if i > 0 {
        lemma_prefix_span_drop(s, k, i - 1);
    }
}

/// Clears the status bits of the records at indices `a` up to `k`.
pub open spec fn cleared(s: Seq<RecordView>, a: int, k: int) -> Seq<RecordView> {
    Seq::new(s.len(), |j: int| if a <= j < k { s[j].with_done(false) } else { s[j] })
}

impl ArenaView {
    /// Committing moves the write frontier to the first unfinished record.
    pub proof fn lemma_commit_run(self, k: int)
        requires
            self.write_count <= k <= self.records.len(),
            forall|j: int| self.write_count <= j < k ==> (#[trigger] self.records[j]).done,
            k < self.records.len() ==> !self.records[k].done,
        ensures
            self.commit() == (ArenaView {
                records: cleared(self.records, self.write_count as int, k),
                write_count: k as nat,
                ..self
            }),
        decreases k - self.write_count,
    {
        let w = self.write_count as int;
        if w < k {
            let next = ArenaView {
                records: self.records.update(w, self.records[w].with_done(false)),
                write_count: (w + 1) as nat,
                ..self
            };
            next.lemma_commit_run(k);
            assert(cleared(next.records, w + 1, k) =~= cleared(self.records, w, k));
        } else {
            assert(cleared(self.records, w, k) =~= self.records);
        }
    }

    /// Reclaiming drops every released record up to the first one still read.
    pub proof fn lemma_reclaim_run(self, k: int)
        requires
            0 <= k <= self.read_count,
            self.read_count <= self.write_count <= self.records.len(),
            forall|j: int| 0 <= j < k ==> (#[trigger] self.records[j]).done,
            k < self.read_count ==> !self.records[k].done,
        ensures
            self.reclaim() == (ArenaView {
                first: self.first + k as nat,
                records: self.records.subrange(k, self.records.len() as int),
                read_count: (self.read_count - k) as nat,
                write_count: (self.write_count - k) as nat,
                ..self
            }),
        decreases k,
    {
        if 0 < k {
            let next = ArenaView {
                first: self.first + 1,
                records: self.records.drop_first(),
                read_count: (self.read_count - 1) as nat,
                write_count: (self.write_count - 1) as nat,
                ..self
            };
            assert forall|j: int| 0 <= j < k - 1 implies (#[trigger] next.records[j]).done by {
                assert(next.records[j] == self.records[j + 1]);
            }
            next.lemma_reclaim_run(k - 1);
            assert(next.records.subrange(k - 1, next.records.len() as int) =~= self.records.subrange(
                k,
                self.records.len() as int,
            ));
        } else {
            assert(self.records.subrange(0, self.records.len() as int) =~= self.records);
        }
    }
}

} // verus!
