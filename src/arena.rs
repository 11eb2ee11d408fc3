//! The circular arena: a byte store twice the logical capacity, a table of
//! header words, and four cursors (release, read, write, reservation).
//!
//! A record's header word sits in the table, at the word index of the
//! record's start; its payload follows the header's word in the byte store.
//! A record that starts near the end of the lap runs on into the second half
//! of the store, so every payload is one contiguous slice.
//!
//! Besides the cursors the arena keeps three distances measured from the
//! release cursor: the bytes in use and the distances to the read and write
//! cursors. A full lap puts the reservation cursor back on the release
//! cursor, so emptiness is told by these distances, never by cursor equality.
//!
//! Handles carry the position of their record, not a reference to the arena:
//! each operation takes the arena by exclusive reference, which serializes
//! reservations, reads and both frontier advances.
use vstd::prelude::*;
use crate::codec::{
    clear_ready, decode_length, encode_header, fits_header, header_word, is_ready,
    lemma_header_word, length_fits, mark_ready,
};
use crate::layout::{align_ptr_to_usize, WORD};
use crate::model::{
    cleared, fold, lemma_prefix_span_aligned, lemma_prefix_span_drop, lemma_prefix_span_lens,
    lemma_prefix_span_mono, lemma_prefix_span_next, prefix_span, span, ArenaView,
};

verus! {

/// Logical capacity of an arena made by `CircullarBuffer::new`.
pub const BUFFER_SIZE: usize = 4096;

/// Why a reservation was refused.
#[derive(Debug, PartialEq, Eq, Structural)]
pub enum BufferAddValueError {
    /// The length does not fit a header word, or the record does not fit in
    /// the space not yet reclaimed.
    SizeTooBig,
}

/// Why no record could be handed to a reader.
#[derive(Debug, PartialEq, Eq, Structural)]
pub enum BufferGetValueError {
    /// Every visible record has already been handed out.
    NoValueInBuffer,
}

/// Exclusive claim on the payload of a record being written. It is given up
/// by `finish`, which makes the record eligible to become visible. The claim
/// holds no reference to its arena, so dropping it cannot finish the record:
/// `finish` runs only when called. A claim lost without it (an early return,
/// a panic) leaves its record unfinished, and no later record ever becomes
/// visible.
#[must_use]
pub struct ReservedMemory {
    start: usize,
    size: usize,
    seq: Ghost<nat>,
}

/// A record handed to a reader. It is given up by `finish`, which makes the
/// record's space eligible to be reclaimed. The value holds no reference to
/// its arena, so dropping it cannot release the record: `finish` runs only
/// when called. A value lost without it (an early return, a panic) keeps its
/// record, and every record consumed after it, from ever being reclaimed.
#[must_use]
pub struct ReturnedValue {
    start: usize,
    size: usize,
    seq: Ghost<nat>,
}

impl View for ReservedMemory {
    /// The record's number in reservation order, its header position and its
    /// payload length.
    type V = (nat, nat, nat);

    closed spec fn view(&self) -> (nat, nat, nat) {
        (self.seq@, self.start as nat, self.size as nat)
    }
}

impl View for ReturnedValue {
    /// The record's number in reservation order, its header position and its
    /// payload length.
    type V = (nat, nat, nat);

    closed spec fn view(&self) -> (nat, nat, nat) {
        (self.seq@, self.start as nat, self.size as nat)
    }
}

/// A fixed-capacity ring of variable-length records.
pub struct CircullarBuffer {
    data: Vec<u8>,
    headers: Vec<u64>,
    capacity: usize,
    release_cursor: usize,
    read_cursor: usize,
    write_cursor: usize,
    reservation_cursor: usize,
    used: usize,
    read_dist: usize,
    write_dist: usize,
    model: Ghost<ArenaView>,
}

impl View for CircullarBuffer {
    type V = ArenaView;

    closed spec fn view(&self) -> ArenaView {
        self.model@
    }
}

impl CircullarBuffer {
    /// Position of the header of record `i` (or, for `i` equal to the number of
    /// records, of the next one) in the byte store.
    closed spec fn pos(&self, i: int) -> int {
        fold(
            self.release_cursor + prefix_span(self.model@.records, i),
            self.capacity as int,
        )
    }

    /// The links between the store, the cursors and the model.
    pub closed spec fn inv(&self) -> bool {
        let v = self.model@;
        let c = self.capacity as int;
        &&& v.shape()
        &&& v.capacity == c
        &&& self.data@.len() == 2 * c
        &&& self.headers@.len() == c / 8
        &&& self.release_cursor < c
        &&& self.release_cursor % 8 == 0
        &&& self.reservation_cursor == v.reservation
        &&& v.reservation == self.pos(v.records.len() as int)
        &&& self.read_cursor == self.pos(v.read_count as int)
        &&& self.write_cursor == self.pos(v.write_count as int)
        &&& self.used == v.used()
        &&& self.read_dist == prefix_span(v.records, v.read_count as int)
        &&& self.write_dist == prefix_span(v.records, v.write_count as int)
        &&& forall|i: int|
            0 <= i < v.records.len() ==> {
                let r = #[trigger] v.records[i];
                &&& r.start == self.pos(i)
                &&& self.headers@[r.start as int / 8] == header_word(r.len, r.done)
                &&& r.payload == self.data@.subrange(r.start + 8int, r.start + 8int + r.len)
            }
    }

    /// The byte store: twice the capacity, the second half taking the ends of
    /// records that run past the end of the lap.
    pub closed spec fn store(&self) -> Seq<u8> {
        self.data@
    }

    /// The release cursor: where the oldest unreclaimed record starts.
    pub closed spec fn release_at(&self) -> nat {
        self.release_cursor as nat
    }

    /// The read cursor: where the oldest record not yet handed out starts.
    pub closed spec fn read_at(&self) -> nat {
        self.read_cursor as nat
    }

    /// The write cursor: where the oldest record not yet visible starts.
    pub closed spec fn write_at(&self) -> nat {
        self.write_cursor as nat
    }

    /// The reservation cursor: where the next record will start.
    pub closed spec fn reservation_at(&self) -> nat {
        self.reservation_cursor as nat
    }

    /// Where the records lie in the byte store: the store spans two laps;
    /// each record starts one span (folded back by a lap) after the one before
    /// it, the next reservation one span after the last; the release, read and
    /// write cursors stand at the starts of the oldest record, of record
    /// `read_count` and of record `write_count` (at the next reservation where
    /// there is no such record); each record's span stays in the store, its
    /// payload is the store's bytes just after its header word, and the spans
    /// of two live records never overlap.
    pub open spec fn placed(&self) -> bool {
        let v = self@;
        let c = v.capacity as int;
        let n = v.records.len() as int;
        &&& self.store().len() == 2 * c
        &&& self.reservation_at() == v.reservation
        &&& forall|i: int|
            0 <= i < n ==> {
                let r = #[trigger] v.records[i];
                &&& r.start + span(r.len) <= 2 * c
                &&& r.payload == self.store().subrange(r.start + 8int, r.start + 8int + r.len)
            }
        &&& forall|i: int|
            0 <= i < n - 1 ==> v.records[i + 1].start == fold(
                (#[trigger] v.records[i]).start + span(v.records[i].len) as int,
                c,
            )
        &&& 0 < n ==> v.reservation == fold(v.records[n - 1].start + span(v.records[n - 1].len) as int, c)
        &&& self.release_at() == if 0 < n {
            v.records[0].start
        } else {
            v.reservation
        }
        &&& self.read_at() == if v.read_count < n {
            v.records[v.read_count as int].start
        } else {
            v.reservation
        }
        &&& self.write_at() == if v.write_count < n {
            v.records[v.write_count as int].start
        } else {
            v.reservation
        }
        &&& forall|i: int, j: int|
            0 <= i < j < n ==> #[trigger] v.records[i].start + span(v.records[i].len)
                <= #[trigger] v.records[j].start || v.records[j].start + span(v.records[j].len)
                <= v.records[i].start
    }

    /// A well-formed arena places its records as `placed` says.
    pub proof fn lemma_placed(&self)
        requires
            self.wf(),
        ensures
            self.placed(),
    {
        let v = self.model@;
        let n = v.records.len() as int;
        self.lemma_layout();
        assert(self.pos(0) == self.release_cursor) by {
            reveal(prefix_span);
        }
        assert forall|i: int| 0 <= i < n implies {
            let r = #[trigger] v.records[i];
            r.start + span(r.len) <= 2 * self.capacity
        } by {
            self.lemma_positions(i, n);
        }
        assert forall|i: int| 0 <= i < n - 1 implies v.records[i + 1].start == fold(
            (#[trigger] v.records[i]).start + span(v.records[i].len) as int,
            self.capacity as int,
        ) by {
            self.lemma_next_pos(i);
        }
        if 0 < n {
            self.lemma_next_pos(n - 1);
        }
        assert forall|i: int, j: int| 0 <= i < j < n implies #[trigger] v.records[i].start + span(
            v.records[i].len,
        ) <= #[trigger] v.records[j].start || v.records[j].start + span(v.records[j].len)
            <= v.records[i].start by {
            self.lemma_positions(i, j);
        }
    }

    /// Whether the arena is in a state that its operations accept.
    pub open spec fn wf(&self) -> bool {
        self.inv() && self@.wf()
    }

    /// Prefixes grow strictly; slots less than a lap apart have distinct
    /// positions; live records do not overlap; and the span of each record
    /// stays within twice the capacity.
    proof fn lemma_positions(&self, i: int, j: int)
        requires
            self.inv(),
            0 <= i < j <= self.model@.records.len(),
        ensures
            prefix_span(self.model@.records, i) < prefix_span(self.model@.records, j),
            prefix_span(self.model@.records, j) - prefix_span(self.model@.records, i)
                < self.capacity ==> self.pos(i) != self.pos(j),
            self.pos(i) + span(self.model@.records[i].len) <= 2 * self.capacity,
            j < self.model@.records.len() ==> self.pos(i) + span(self.model@.records[i].len)
                <= self.pos(j) || self.pos(j) + span(self.model@.records[j].len) <= self.pos(i),
    {
        let s = self.model@.records;
        let n = s.len() as int;
        lemma_prefix_span_mono(s, i, j);
        lemma_prefix_span_mono(s, j, n);
        if j < n {
            assert(prefix_span(s, j) + span(s[j].len) <= prefix_span(s, n));
        }
    }

    /// Facts about the cursor positions that every operation needs.
    proof fn lemma_layout(&self)
        requires
            self.inv(),
        ensures
            forall|i: int|
                0 <= i <= self.model@.records.len() ==> {
                    &&& #[trigger] self.pos(i) < self.capacity
                    &&& self.pos(i) % 8 == 0
                    &&& prefix_span(self.model@.records, i) <= self.model@.used()
                },
    {
        let s = self.model@.records;
        assert forall|i: int| 0 <= i <= s.len() implies {
            &&& #[trigger] self.pos(i) < self.capacity
            &&& self.pos(i) % 8 == 0
            &&& prefix_span(s, i) <= self.model@.used()
        } by {
            lemma_prefix_span_mono(s, i, s.len() as int);
            lemma_prefix_span_aligned(s, i);
        }
    }

    /// An empty arena whose logical capacity is `capacity` rounded down to whole
    /// words (records start on word boundaries, and so must each lap), backed
    /// by twice as many bytes, all zero.
    pub fn with_capacity(capacity: usize) -> (r: Self)
        requires
            8 <= capacity,
            2 * capacity + 16 <= usize::MAX,
        ensures
            r.wf(),
            r@ == (ArenaView {
                capacity: (capacity - capacity % 8) as nat,
                reservation: 0,
                first: 0,
                records: Seq::empty(),
                read_count: 0,
                write_count: 0,
            }),
            r.store() == Seq::new(2 * (capacity - capacity % 8) as nat, |i: int| 0u8),
    {
        let capacity = capacity - capacity % WORD;
        let data: Vec<u8> = vec![0u8; 2 * capacity];
        let headers: Vec<u64> = vec![0u64; capacity / WORD];
        let start = align_ptr_to_usize(0);
        let r = CircullarBuffer {
            data,
            headers,
            capacity,
            release_cursor: start,
            read_cursor: start,
            write_cursor: start,
            reservation_cursor: start,
            used: 0,
            read_dist: 0,
            write_dist: 0,
            model: Ghost(
                ArenaView {
                    capacity: capacity as nat,
                    reservation: 0,
                    first: 0,
                    records: Seq::empty(),
                    read_count: 0,
                    write_count: 0,
                },
            ),
        };
        assert(r.model@.used() == 0 && prefix_span(r.model@.records, 0) == 0) by {
            reveal(prefix_span);
        }
        assert(r.data@ =~= Seq::new(2 * capacity as nat, |i: int| 0u8));
        r
    }

    /// An empty arena of logical capacity `BUFFER_SIZE`.
    pub fn new() -> (r: Self)
        ensures
            r.wf(),
            r@ == (ArenaView {
                capacity: BUFFER_SIZE as nat,
                reservation: 0,
                first: 0,
                records: Seq::empty(),
                read_count: 0,
                write_count: 0,
            }),
            r.store() == Seq::new(2 * BUFFER_SIZE as nat, |i: int| 0u8),
    {
        Self::with_capacity(BUFFER_SIZE)
    }

    /// The state that `reserve` leaves behind is well formed.
    proof fn lemma_reserve_step(pre: &Self, post: &Self, size: nat)
        requires
            pre.inv(),
            pre@.wf(),
            pre@.admits(size),
            post.capacity == pre.capacity,
            post.release_cursor == pre.release_cursor,
            post.read_cursor == pre.read_cursor,
            post.write_cursor == pre.write_cursor,
            post.used == pre.used + span(size),
            post.read_dist == pre.read_dist,
            post.write_dist == pre.write_dist,
            post.reservation_cursor == fold(
                pre.reservation_cursor + span(size),
                pre.capacity as int,
            ),
            post.data@ == pre.data@,
            post.headers@ == pre.headers@.update(
                pre.reservation_cursor as int / 8,
                header_word(size, false),
            ),
            post@ == pre@.reserved(
                size,
                pre.data@.subrange(pre.reservation_cursor + 8int, pre.reservation_cursor + 8int + size),
            ),
        ensures
            post.inv(),
            post@.wf(),
    {
        let v = pre@;
        let w = post@;
        let n = v.records.len() as int;
        pre.lemma_layout();
        lemma_prefix_span_aligned(v.records, n);
        assert forall|j: int| 0 <= j <= n implies prefix_span(w.records, j) == prefix_span(
            v.records,
            j,
        ) by {
            lemma_prefix_span_lens(v.records, w.records, j);
        }
        lemma_prefix_span_next(w.records, n);
        assert(prefix_span(w.records, n + 1) == v.used() + span(size));
        assert forall|j: int| 0 <= j <= n implies post.pos(j) == pre.pos(j) by {}
        assert forall|i: int| 0 <= i < n implies #[trigger] v.records[i].start / 8 != pre.pos(n) / 8 by {
            pre.lemma_positions(i, n);
        }
        lemma_header_word(size, false);
    }

    /// Reserves a record of `size` payload bytes at the reservation cursor.
    /// The record is not visible to readers until the returned claim is finished.
    pub fn reserve(&mut self, size: usize) -> (r: Result<ReservedMemory, BufferAddValueError>)
        requires
            old(self).wf(),
        ensures
            final(self).wf(),
            final(self).store() == old(self).store(),
            match r {
                Ok(h) => {
                    &&& old(self)@.admits(size as nat)
                    &&& final(self)@ == old(self)@.reserved(
                        size as nat,
                        old(self).store().subrange(h@.1 + 8int, h@.1 + 8int + size),
                    )
                    &&& h@ == (old(self)@.first + old(self)@.records.len(), old(self)@.reservation, size as nat)
                    &&& h@.1 == old(self).reservation_at()
                    &&& h@.1 % 8 == 0
                    &&& final(self)@.is_reserved(h@)
                },
                Err(e) => {
                    &&& !old(self)@.admits(size as nat)
                    &&& e == BufferAddValueError::SizeTooBig
                    &&& final(self)@ == old(self)@
                },
            },
    {
        let ghost pre = *self;
        let ghost v = self.model@;
        let ghost n = v.records.len() as int;
        proof {
            self.lemma_layout();
        }
        if !fits_header(size as u64) {
            return Err(BufferAddValueError::SizeTooBig);
        }
        let c = self.capacity;
        let p = align_ptr_to_usize(self.reservation_cursor);
        let free = c - self.used;
        if size >= free {
            return Err(BufferAddValueError::SizeTooBig);
        }
        let need = WORD + align_ptr_to_usize(size);
        if need > free {
            return Err(BufferAddValueError::SizeTooBig);
        }
        self.headers.set(p / WORD, encode_header(size as u64));
        let end = p + need;
        let next = if end >= c {
            end - c
        } else {
            end
        };
        self.reservation_cursor = next;
        self.used = self.used + need;
        self.model = Ghost(v.reserved(size as nat, self.data@.subrange(p + 8int, p + 8int + size)));
        proof {
            Self::lemma_reserve_step(&pre, self, size as nat);
        }
        Ok(ReservedMemory { start: p, size, seq: Ghost(v.first + n as nat) })
    }

    /// The header of record `k` is followed, one span later, by the header of
    /// record `k + 1` (or by the reservation cursor).
    proof fn lemma_next_pos(&self, k: int)
        requires
            self.inv(),
            0 <= k < self.model@.records.len(),
        ensures
            self.pos(k + 1) == fold(
                self.pos(k) + span(self.model@.records[k].len),
                self.capacity as int,
            ),
            self.pos(k) + span(self.model@.records[k].len) <= 2 * self.capacity,
            self.model@.records[k].len < self.capacity,
    {
        let s = self.model@.records;
        lemma_prefix_span_next(s, k);
        lemma_prefix_span_mono(s, k + 1, s.len() as int);
    }

    /// Setting the status bit of record `k` in both the header table and the
    /// model keeps the store and the model linked.
    proof fn lemma_set_done(s0: &Self, s1: &Self, k: int, d: bool)
        requires
            s0.inv(),
            0 <= k < s0@.records.len(),
            d ==> !(s0@.read_count <= k < s0@.write_count),
            s1.capacity == s0.capacity,
            s1.release_cursor == s0.release_cursor,
            s1.read_cursor == s0.read_cursor,
            s1.write_cursor == s0.write_cursor,
            s1.reservation_cursor == s0.reservation_cursor,
            s1.used == s0.used,
            s1.read_dist == s0.read_dist,
            s1.write_dist == s0.write_dist,
            s1.data@ == s0.data@,
            s1.headers@ == s0.headers@.update(
                s0@.records[k].start as int / 8,
                header_word(s0@.records[k].len, d),
            ),
            s1@ == (ArenaView {
                records: s0@.records.update(k, s0@.records[k].with_done(d)),
                ..s0@
            }),
        ensures
            s1.inv(),
            forall|i: int| 0 <= i <= s0@.records.len() ==> s1.pos(i) == s0.pos(i),
    {
        let v = s0@;
        let w = s1@;
        let n = v.records.len() as int;
        assert forall|j: int| 0 <= j <= n implies prefix_span(w.records, j) == prefix_span(
            v.records,
            j,
        ) by {
            lemma_prefix_span_lens(v.records, w.records, j);
        }
        assert forall|i: int| 0 <= i <= n implies s1.pos(i) == s0.pos(i) by {}
        assert forall|i: int| 0 <= i < n && i != k implies #[trigger] v.records[i].start / 8
            != v.records[k].start / 8 by {
            s0.lemma_layout();
            if i < k {
                s0.lemma_positions(i, k);
            } else {
                s0.lemma_positions(k, i);
            }
        }
        assert forall|i: int| 0 <= i < w.records.len() implies {
            let r = #[trigger] w.records[i];
            &&& r.start == s1.pos(i)
            &&& s1.headers@[r.start as int / 8] == header_word(r.len, r.done)
            &&& r.payload == s1.data@.subrange(r.start + 8int, r.start + 8int + r.len)
        } by {
            assert(v.records[i].start == s0.pos(i));
        }
    }

    /// The frontier-advance scan shared by commit and reclaim. Starting at record
    /// `a`, whose header is at `from`, and never passing record `b`, which lies
    /// `distance` bytes further on, it clears the status bit of each finished
    /// record in turn and stops at the first unfinished one. It returns where it
    /// stopped, how many bytes it moved over, and that record's index.
    fn advance_frontier(
        &mut self,
        from: usize,
        distance: usize,
        Ghost(a): Ghost<int>,
        Ghost(b): Ghost<int>,
    ) -> (r: (usize, usize, Ghost<int>))
        requires
            old(self).inv(),
            0 <= a <= b <= old(self)@.records.len(),
            from == old(self).pos(a),
            distance == prefix_span(old(self)@.records, b) - prefix_span(old(self)@.records, a),
        ensures
            final(self).inv(),
            a <= r.2@ <= b,
            r.0 == old(self).pos(r.2@),
            r.1 == prefix_span(old(self)@.records, r.2@) - prefix_span(old(self)@.records, a),
            forall|j: int| a <= j < r.2@ ==> (#[trigger] old(self)@.records[j]).done,
            r.2@ < b ==> !old(self)@.records[r.2@].done,
            final(self)@ == (ArenaView { records: cleared(old(self)@.records, a, r.2@), ..old(self)@ }),
            forall|i: int| 0 <= i <= old(self)@.records.len() ==> final(self).pos(i) == old(self).pos(i),
            forall|i: int|
                0 <= i <= old(self)@.records.len() ==> prefix_span(final(self)@.records, i)
                    == prefix_span(old(self)@.records, i),
            final(self).capacity == old(self).capacity,
            final(self).release_cursor == old(self).release_cursor,
            final(self).read_cursor == old(self).read_cursor,
            final(self).write_cursor == old(self).write_cursor,
            final(self).reservation_cursor == old(self).reservation_cursor,
            final(self).used == old(self).used,
            final(self).read_dist == old(self).read_dist,
            final(self).write_dist == old(self).write_dist,
            final(self).data@ == old(self).data@,
    {
        let ghost pre = *self;
        let ghost v = self.model@;
        let ghost n = v.records.len() as int;
        let c = self.capacity;
        let mut pos = from;
        let mut moved: usize = 0;
        let ghost mut k = a;
        proof {
            assert(cleared(v.records, a, a) =~= v.records);
            if a < b {
                pre.lemma_positions(a, b);
            }
        }
        loop
            invariant
                self.inv(),
                pre.inv(),
                pre@ == v,
                0 <= a <= k <= b <= n,
                n == v.records.len(),
                c == pre.capacity,
                pos == pre.pos(k),
                moved == prefix_span(v.records, k) - prefix_span(v.records, a),
                distance == prefix_span(v.records, b) - prefix_span(v.records, a),
                forall|j: int| a <= j < k ==> (#[trigger] v.records[j]).done,
                self@ == (ArenaView { records: cleared(v.records, a, k), ..v }),
                forall|i: int| 0 <= i <= n ==> self.pos(i) == pre.pos(i),
                forall|i: int| 0 <= i <= n ==> prefix_span(self@.records, i) == prefix_span(v.records, i),
                self.capacity == pre.capacity,
                self.release_cursor == pre.release_cursor,
                self.read_cursor == pre.read_cursor,
                self.write_cursor == pre.write_cursor,
                self.reservation_cursor == pre.reservation_cursor,
                self.used == pre.used,
                self.read_dist == pre.read_dist,
                self.write_dist == pre.write_dist,
                self.data@ == pre.data@,
            ensures
                k == b || !v.records[k].done,
            decreases b - k,
        {
            if moved == distance {
                proof {
                    if k < b {
                        pre.lemma_positions(k, b);
                    }
                }
                break;
            }
            proof {
                assert(k < b);
                self.lemma_layout();
                self.lemma_next_pos(k);
                pre.lemma_next_pos(k);
                lemma_prefix_span_next(v.records, k);
                lemma_prefix_span_mono(v.records, k + 1, b);
                lemma_header_word(v.records[k].len, v.records[k].done);
            }
            let w = self.headers[pos / WORD];
            if !is_ready(w) {
                break;
            }
            let len = decode_length(w);
            let step = WORD + align_ptr_to_usize(len as usize);
            let end = pos + step;
            let ghost s0 = *self;
            self.headers.set(pos / WORD, clear_ready(w));
            self.model = Ghost(ArenaView { records: cleared(v.records, a, k + 1), ..v });
            proof {
                assert(cleared(v.records, a, k + 1) =~= s0@.records.update(
                    k,
                    s0@.records[k].with_done(false),
                ));
                Self::lemma_set_done(&s0, self, k, false);
                assert forall|i: int| 0 <= i <= n implies prefix_span(self@.records, i)
                    == prefix_span(v.records, i) by {
                    lemma_prefix_span_lens(v.records, self@.records, i);
                }
            }
            pos = if end >= c {
                end - c
            } else {
                end
            };
            moved = moved + step;
            proof {
                k = k + 1;
            }
        }
        (pos, moved, Ghost(k))
    }

    /// Moves the write frontier over the finished records that follow it.
    fn declare(&mut self)
        requires
            old(self).inv(),
            0 < old(self)@.read_count ==> !old(self)@.records[0].done,
        ensures
            final(self).wf(),
            final(self)@ == old(self)@.commit(),
            final(self).data@ == old(self).data@,
    {
        let ghost v = self.model@;
        let ghost n = v.records.len() as int;
        proof {
            lemma_prefix_span_mono(v.records, v.write_count as int, n);
        }
        if self.write_dist == self.used {
            proof {
                if v.write_count < n {
                    self.lemma_positions(v.write_count as int, n);
                }
            }
            return;
        }
        let (pos, moved, k) = self.advance_frontier(
            self.write_cursor,
            self.used - self.write_dist,
            Ghost(v.write_count as int),
            Ghost(n),
        );
        self.write_cursor = pos;
        self.write_dist = self.write_dist + moved;
        self.model = Ghost(ArenaView { write_count: k@ as nat, ..self.model@ });
        proof {
            v.lemma_commit_run(k@);
        }
    }

    /// Frees the space of the released records at the front of the arena, up
    /// to the first record that a reader still holds. On a well-formed arena
    /// the frontier already stands there, so this changes nothing; giving a
    /// record back through `ReturnedValue::finish` runs the same advance.
    pub fn release(&mut self)
        requires
            old(self).wf(),
        ensures
            final(self).wf(),
            final(self)@ == old(self)@.reclaim(),
            final(self)@ == old(self)@,
            final(self).store() == old(self).store(),
    {
        self.reclaim_space();
    }

    /// Moves the release frontier over the released records at the front of the
    /// arena, freeing their space.
    fn reclaim_space(&mut self)
        requires
            old(self).inv(),
            old(self)@.write_count < old(self)@.records.len() ==> !old(
                self,
            )@.records[old(self)@.write_count as int].done,
        ensures
            final(self).wf(),
            final(self)@ == old(self)@.reclaim(),
            final(self).data@ == old(self).data@,
    {
        let ghost v = self.model@;
        let ghost n = v.records.len() as int;
        assert(self.pos(0) == self.release_cursor && prefix_span(v.records, 0) == 0) by {
            reveal(prefix_span);
        }
        if self.read_dist == 0 {
            proof {
                if 0 < v.read_count {
                    self.lemma_positions(0, v.read_count as int);
                }
            }
            return;
        }
        let (pos, moved, k) = self.advance_frontier(
            self.release_cursor,
            self.read_dist,
            Ghost(0),
            Ghost(v.read_count as int),
        );
        proof {
            lemma_prefix_span_mono(v.records, k@, v.read_count as int);
            lemma_prefix_span_mono(v.records, v.read_count as int, v.write_count as int);
            lemma_prefix_span_mono(v.records, v.write_count as int, n);
        }
        let ghost s0 = *self;
        self.release_cursor = pos;
        self.used = self.used - moved;
        self.read_dist = self.read_dist - moved;
        self.write_dist = self.write_dist - moved;
        self.model = Ghost(
            ArenaView {
                first: v.first + k@ as nat,
                records: s0@.records.subrange(k@, n),
                read_count: (v.read_count - k@) as nat,
                write_count: (v.write_count - k@) as nat,
                ..v
            },
        );
        proof {
            Self::lemma_drop_step(&s0, self, k@);
            v.lemma_reclaim_run(k@);
            assert(s0@.records.subrange(k@, n) =~= v.records.subrange(k@, n));
        }
    }

    /// Dropping the first `k` records and moving the release cursor to the
    /// header of record `k` keeps the store and the model linked.
    proof fn lemma_drop_step(s0: &Self, s1: &Self, k: int)
        requires
            s0.inv(),
            0 <= k <= s0@.read_count,
            forall|j: int| 0 <= j < k ==> !(#[trigger] s0@.records[j]).done,
            s1.capacity == s0.capacity,
            s1.release_cursor == s0.pos(k),
            s1.read_cursor == s0.read_cursor,
            s1.write_cursor == s0.write_cursor,
            s1.reservation_cursor == s0.reservation_cursor,
            s1.used == s0.used - prefix_span(s0@.records, k),
            s1.read_dist == s0.read_dist - prefix_span(s0@.records, k),
            s1.write_dist == s0.write_dist - prefix_span(s0@.records, k),
            s1.data@ == s0.data@,
            s1.headers@ == s0.headers@,
            s1@ == (ArenaView {
                first: s0@.first + k as nat,
                records: s0@.records.subrange(k, s0@.records.len() as int),
                read_count: (s0@.read_count - k) as nat,
                write_count: (s0@.write_count - k) as nat,
                ..s0@
            }),
        ensures
            s1.inv(),
            forall|i: int| 0 <= i <= s1@.records.len() ==> s1.pos(i) == s0.pos(i + k),
    {
        let v = s0@;
        let w = s1@;
        let n = v.records.len() as int;
        s0.lemma_layout();
        lemma_prefix_span_mono(v.records, k, n);
        assert forall|i: int| 0 <= i <= n - k implies s1.pos(i) == s0.pos(i + k) by {
            lemma_prefix_span_drop(v.records, k, i);
            lemma_prefix_span_mono(v.records, i + k, n);
        }
        lemma_prefix_span_drop(v.records, k, n - k);
        lemma_prefix_span_drop(v.records, k, v.read_count - k);
        lemma_prefix_span_drop(v.records, k, v.write_count - k);
        assert forall|i: int| 0 <= i < w.records.len() implies {
            let r = #[trigger] w.records[i];
            &&& r.start == s1.pos(i)
            &&& s1.headers@[r.start as int / 8] == header_word(r.len, r.done)
            &&& r.payload == s1.data@.subrange(r.start + 8int, r.start + 8int + r.len)
        } by {
            assert(w.records[i] == v.records[i + k]);
        }
        assert forall|i: int| 0 <= i < w.records.len() implies {
            let r = #[trigger] w.records[i];
            &&& r.start < w.capacity
            &&& r.start % 8 == 0
            &&& length_fits(r.len as int)
            &&& r.payload.len() == r.len
        } by {
            assert(w.records[i] == v.records[i + k]);
        }
        assert forall|i: int| w.read_count <= i < w.write_count implies !(
        #[trigger] w.records[i]).done by {
            assert(w.records[i] == v.records[i + k]);
        }
    }

    /// Hands the oldest visible record to a reader.
    pub fn get_value(&mut self) -> (r: Result<ReturnedValue, BufferGetValueError>)
        requires
            old(self).wf(),
        ensures
            final(self).wf(),
            final(self).store() == old(self).store(),
            match r {
                Ok(val) => {
                    let i = old(self)@.read_count as int;
                    &&& old(self)@.read_count < old(self)@.write_count
                    &&& final(self)@ == old(self)@.consumed()
                    &&& val@ == ((old(self)@.first + i) as nat, old(self)@.records[i].start, old(self)@.records[i].len)
                    &&& val@.1 == old(self).read_at()
                    &&& val@.1 % 8 == 0
                    &&& final(self)@.is_lent(val@)
                },
                Err(e) => {
                    &&& old(self)@.read_count == old(self)@.write_count
                    &&& e == BufferGetValueError::NoValueInBuffer
                    &&& final(self)@ == old(self)@
                },
            },
    {
        let ghost v = self.model@;
        let ghost i = v.read_count as int;
        let read = self.read_cursor;
        if self.read_dist == self.write_dist {
            proof {
                if v.read_count < v.write_count {
                    self.lemma_positions(i, v.write_count as int);
                }
            }
            return Err(BufferGetValueError::NoValueInBuffer);
        }
        proof {
            self.lemma_layout();
            self.lemma_next_pos(i);
            lemma_prefix_span_next(v.records, i);
            lemma_prefix_span_mono(v.records, i + 1, v.records.len() as int);
            lemma_header_word(v.records[i].len, v.records[i].done);
        }
        let size = decode_length(self.headers[read / WORD]) as usize;
        let end = read + WORD + align_ptr_to_usize(size);
        let c = self.capacity;
        self.read_cursor = if end >= c {
            end - c
        } else {
            end
        };
        self.read_dist = self.read_dist + (end - read);
        self.model = Ghost(v.consumed());
        Ok(ReturnedValue { start: read, size, seq: Ghost(v.first + v.read_count) })
    }

    /// Positions and lengths of the records stay within the byte store.
    proof fn lemma_record_bounds(&self, i: int)
        requires
            self.inv(),
            0 <= i < self.model@.records.len(),
        ensures
            self.model@.records[i].start + 8 + self.model@.records[i].len <= self.data@.len(),
    {
        self.lemma_positions(i, self.model@.records.len() as int);
    }
}

impl ReservedMemory {
    /// Length of the reserved payload.
    pub fn get_size(&self) -> (r: usize)
        ensures
            r == self@.2,
    {
        self.size
    }

    /// Offset of the payload in the arena's byte store: just after the header
    /// word, so always a multiple of the word size.
    pub fn payload_offset(&self) -> (r: usize)
        requires
            self@.1 % 8 == 0,
            self@.1 + 8 <= usize::MAX,
        ensures
            r == self@.1 + 8,
            r % 8 == 0,
    {
        self.start + WORD
    }

    /// The reserved payload as it stands.
    pub fn get_ref<'a>(&self, buffer: &'a CircullarBuffer) -> (r: &'a [u8])
        requires
            buffer.wf(),
            buffer@.is_reserved(self@),
        ensures
            r@ == buffer@.records[self@.0 - buffer@.first].payload,
    {
        proof {
            buffer.lemma_record_bounds(self@.0 - buffer@.first);
        }
        vstd::slice::slice_subrange(
            buffer.data.as_slice(),
            self.start + WORD,
            self.start + WORD + self.size,
        )
    }

    /// Copies `bytes` into the reserved payload from byte `offset` on.
    pub fn write(&self, buffer: &mut CircullarBuffer, offset: usize, bytes: &[u8])
        requires
            old(buffer).wf(),
            old(buffer)@.is_reserved(self@),
            offset + bytes@.len() <= self@.2,
        ensures
            final(buffer).wf(),
            final(buffer)@ == old(buffer)@.written(
                self@.0 - old(buffer)@.first,
                offset as int,
                bytes@,
            ),
            final(buffer).store() == old(buffer).store().subrange(0, self@.1 + 8 + offset)
                + bytes@ + old(buffer).store().subrange(
                self@.1 + 8 + offset + bytes@.len(),
                old(buffer).store().len() as int,
            ),
    {
        let ghost pre = *buffer;
        let ghost i = self@.0 - pre@.first;
        proof {
            buffer.lemma_record_bounds(i);
        }
        let base = self.start + WORD + offset;
        let mut k: usize = 0;
        while k < bytes.len()
            invariant
                k <= bytes@.len(),
                base + bytes@.len() <= pre.data@.len(),
                pre.data@.len() <= usize::MAX,
                buffer.data@.len() == pre.data@.len(),
                forall|j: int|
                    0 <= j < pre.data@.len() ==> #[trigger] buffer.data@[j] == if base <= j < base
                        + k {
                        bytes@[j - base]
                    } else {
                        pre.data@[j]
                    },
                buffer.headers@ == pre.headers@,
                buffer.capacity == pre.capacity,
                buffer.release_cursor == pre.release_cursor,
                buffer.read_cursor == pre.read_cursor,
                buffer.write_cursor == pre.write_cursor,
                buffer.reservation_cursor == pre.reservation_cursor,
                buffer.used == pre.used,
                buffer.read_dist == pre.read_dist,
                buffer.write_dist == pre.write_dist,
                buffer.model == pre.model,
            decreases bytes@.len() - k,
        {
            buffer.data.set(base + k, bytes[k]);
            k = k + 1;
        }
        assert(buffer.data@ =~= pre.data@.subrange(0, base as int) + bytes@ + pre.data@.subrange(
            base + bytes@.len(),
            pre.data@.len() as int,
        ));
        buffer.model = Ghost(pre@.written(i, offset as int, bytes@));
        proof {
            CircullarBuffer::lemma_write_step(&pre, buffer, i, offset as int, bytes@);
        }
    }

    /// Gives up the claim: the record is finished and becomes visible as soon
    /// as every record reserved before it is finished too.
    pub fn finish(self, buffer: &mut CircullarBuffer)
        requires
            old(buffer).wf(),
            old(buffer)@.is_reserved(self@),
        ensures
            final(buffer).wf(),
            final(buffer)@ == old(buffer)@.finish_write(self@.0 - old(buffer)@.first),
            final(buffer).store() == old(buffer).store(),
    {
        let ghost pre = *buffer;
        let ghost i = self@.0 - pre@.first;
        proof {
            buffer.lemma_layout();
            lemma_header_word(pre@.records[i].len, false);
        }
        let w = buffer.headers[self.start / WORD];
        buffer.headers.set(self.start / WORD, mark_ready(w));
        buffer.model = Ghost(
            ArenaView { records: pre@.records.update(i, pre@.records[i].with_done(true)), ..pre@ },
        );
        proof {
            CircullarBuffer::lemma_set_done(&pre, buffer, i, true);
        }
        buffer.declare();
    }
}

impl ReturnedValue {
    /// Length of the record's payload.
    pub fn get_size(&self) -> (r: usize)
        ensures
            r == self@.2,
    {
        self.size
    }

    /// Offset of the payload in the arena's byte store: just after the header
    /// word, so always a multiple of the word size.
    pub fn payload_offset(&self) -> (r: usize)
        requires
            self@.1 % 8 == 0,
            self@.1 + 8 <= usize::MAX,
        ensures
            r == self@.1 + 8,
            r % 8 == 0,
    {
        self.start + WORD
    }

    /// The record's payload, as one contiguous slice of the byte store.
    pub fn get_ref<'a>(&self, buffer: &'a CircullarBuffer) -> (r: &'a [u8])
        requires
            buffer.wf(),
            buffer@.is_lent(self@),
        ensures
            r@ == buffer@.records[self@.0 - buffer@.first].payload,
    {
        proof {
            buffer.lemma_record_bounds(self@.0 - buffer@.first);
        }
        vstd::slice::slice_subrange(
            buffer.data.as_slice(),
            self.start + WORD,
            self.start + WORD + self.size,
        )
    }

    /// Gives the record back: it is released, and its space is reclaimed as
    /// soon as every record consumed before it is released too.
    pub fn finish(self, buffer: &mut CircullarBuffer)
        requires
            old(buffer).wf(),
            old(buffer)@.is_lent(self@),
        ensures
            final(buffer).wf(),
            final(buffer)@ == old(buffer)@.finish_read(self@.0 - old(buffer)@.first),
            final(buffer).store() == old(buffer).store(),
    {
        let ghost pre = *buffer;
        let ghost i = self@.0 - pre@.first;
        proof {
            buffer.lemma_layout();
            lemma_header_word(pre@.records[i].len, false);
        }
        let w = buffer.headers[self.start / WORD];
        buffer.headers.set(self.start / WORD, mark_ready(w));
        buffer.model = Ghost(
            ArenaView { records: pre@.records.update(i, pre@.records[i].with_done(true)), ..pre@ },
        );
        proof {
            CircullarBuffer::lemma_set_done(&pre, buffer, i, true);
        }
        buffer.reclaim_space();
    }
}

impl CircullarBuffer {
    /// Writing into the payload of record `i` changes that payload alone.
    proof fn lemma_write_step(s0: &Self, s1: &Self, i: int, offset: int, bytes: Seq<u8>)
        requires
            s0.inv(),
            0 <= i < s0@.records.len(),
            0 <= offset,
            offset + bytes.len() <= s0@.records[i].len,
            s1.capacity == s0.capacity,
            s1.release_cursor == s0.release_cursor,
            s1.read_cursor == s0.read_cursor,
            s1.write_cursor == s0.write_cursor,
            s1.reservation_cursor == s0.reservation_cursor,
            s1.used == s0.used,
            s1.read_dist == s0.read_dist,
            s1.write_dist == s0.write_dist,
            s1.headers@ == s0.headers@,
            s1.data@.len() == s0.data@.len(),
            forall|j: int|
                0 <= j < s0.data@.len() ==> #[trigger] s1.data@[j] == if s0@.records[i].start + 8
                    + offset <= j < s0@.records[i].start + 8 + offset + bytes.len() {
                    bytes[j - (s0@.records[i].start + 8 + offset)]
                } else {
                    s0.data@[j]
                },
            s1@ == s0@.written(i, offset, bytes),
        ensures
            s1.inv(),
    {
        let v = s0@;
        let w = s1@;
        let n = v.records.len() as int;
        assert forall|j: int| 0 <= j <= n implies prefix_span(w.records, j) == prefix_span(
            v.records,
            j,
        ) by {
            lemma_prefix_span_lens(v.records, w.records, j);
        }
        assert forall|j: int| 0 <= j <= n implies s1.pos(j) == s0.pos(j) by {}
        s0.lemma_layout();
        assert forall|m: int| 0 <= m < w.records.len() implies {
            let r = #[trigger] w.records[m];
            &&& r.start == s1.pos(m)
            &&& s1.headers@[r.start as int / 8] == header_word(r.len, r.done)
            &&& r.payload == s1.data@.subrange(r.start + 8int, r.start + 8int + r.len)
        } by {
            let r = w.records[m];
            s0.lemma_record_bounds(m);
            if m == i {
                assert(r.payload =~= s1.data@.subrange(r.start + 8int, r.start + 8int + r.len));
            } else {
                if m < i {
                    s0.lemma_positions(m, i);
                } else {
                    s0.lemma_positions(i, m);
                }
                assert(r.payload =~= s1.data@.subrange(r.start + 8int, r.start + 8int + r.len));
            }
        }
    }
}

impl CircullarBuffer {
    /// The release, read, write and reservation cursors, in that order.
    pub fn cursors(&self) -> (r: (usize, usize, usize, usize))
        requires
            self.wf(),
        ensures
            r == (self.release_at() as usize, self.read_at() as usize, self.write_at() as usize, self.reservation_at() as usize),
            r.3 == self@.reservation,
            r.0 == fold(self@.reservation + self@.capacity - self@.used(), self@.capacity as int),
            r.1 == fold(r.0 + prefix_span(self@.records, self@.read_count as int), self@.capacity as int),
            r.2 == fold(r.0 + prefix_span(self@.records, self@.write_count as int), self@.capacity as int),
    {
        (self.release_cursor, self.read_cursor, self.write_cursor, self.reservation_cursor)
    }

    /// Whether every visible record has been handed to a reader.
    #[allow(non_snake_case)]
    pub fn isEmpty(&self) -> (r: bool)
        requires
            self.wf(),
        ensures
            r == (self@.read_count == self@.write_count),
    {
        proof {
            if self.model@.read_count < self.model@.write_count {
                self.lemma_positions(self.model@.read_count as int, self.model@.write_count as int);
            }
        }
        self.write_dist == self.read_dist
    }
}

} // verus!
