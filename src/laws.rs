//! Laws that relate the arena's operations to one another, proved over the model.
use vstd::prelude::*;
use crate::codec::length_fits;
use crate::model::{
    cleared,    lemma_prefix_span_aligned, lemma_prefix_span_lens, lemma_prefix_span_next, span,
    ArenaView, RecordView,
};

verus! {

impl ArenaView {
    /// The arena with the status bit of record `i` set.
    pub open spec fn set_done(self, i: int) -> ArenaView {
        ArenaView { records: self.records.update(i, self.records[i].with_done(true)), ..self }
    }

    /// The arena after the reader of the record numbered `s` (in reservation
    /// order) finishes.
    pub open spec fn finish_read_seq(self, s: int) -> ArenaView {
        self.finish_read(s - self.first)
    }
}

/// Committing never moves the write frontier past a record that is not finished.
pub proof fn lemma_commit_stops(v: ArenaView, k: int)
    requires
        v.write_count <= k < v.records.len(),
        !v.records[k].done,
    ensures
        v.commit().write_count <= k,
        v.commit().records.len() == v.records.len(),
        v.commit().read_count == v.read_count,
    decreases k - v.write_count,
{
    let w = v.write_count as int;
    if w < v.records.len() && v.records[w].done {
        let next = ArenaView {
            records: v.records.update(w, v.records[w].with_done(false)),
            write_count: (w + 1) as nat,
            ..v
        };
        lemma_commit_stops(next, k);
    }
}

/// Records become visible in reservation order: when the writer of a record
/// finishes while an earlier record is still being written, neither becomes
/// visible.
pub proof fn lemma_fifo_visibility(v: ArenaView, earlier: int, later: int)
    requires
        v.wf(),
        v.write_count <= earlier < later < v.records.len(),
        !v.records[earlier].done,
        !v.records[later].done,
    ensures
        v.finish_write(later).write_count <= earlier,
{
    lemma_commit_stops(v.set_done(later), earlier);
}

impl ArenaView {
    /// The number, in reservation order, of the next record a reader gets.
    pub open spec fn next_out(self) -> nat {
        self.first + self.read_count
    }
}

/// Committing changes neither the oldest live record nor the read frontier.
proof fn lemma_commit_keeps_reads(v: ArenaView)
    ensures
        v.commit().first == v.first,
        v.commit().read_count == v.read_count,
    decreases v.records.len() - v.write_count,
{
    let w = v.write_count as int;
    if w < v.records.len() && v.records[w].done {
        let next = ArenaView {
            records: v.records.update(w, v.records[w].with_done(false)),
            write_count: (w + 1) as nat,
            ..v
        };
        lemma_commit_keeps_reads(next);
    }
}

/// Reclaiming moves the oldest live record and the read frontier together.
proof fn lemma_reclaim_keeps_next_out(v: ArenaView)
    ensures
        v.reclaim().next_out() == v.next_out(),
    decreases v.read_count,
{
    if 0 < v.read_count && 0 < v.records.len() && v.records[0].done {
        let next = ArenaView {
            first: v.first + 1,
            records: v.records.drop_first(),
            read_count: (v.read_count - 1) as nat,
            write_count: (v.write_count - 1) as nat,
            ..v
        };
        lemma_reclaim_keeps_next_out(next);
    }
}

/// Readers get records in reservation order: each record handed out is the
/// one numbered right after the previous one, and reserving, writing and
/// finishing, in any order, never change which record comes out next.
pub proof fn lemma_consume_order(v: ArenaView, len: nat, initial: Seq<u8>, i: int, offset: int, bytes: Seq<u8>)
    ensures
        v.consumed().next_out() == v.next_out() + 1,
        v.reserved(len, initial).next_out() == v.next_out(),
        v.written(i, offset, bytes).next_out() == v.next_out(),
        v.finish_write(i).next_out() == v.next_out(),
        v.finish_read(i).next_out() == v.next_out(),
{
    lemma_commit_keeps_reads(v.set_done(i));
    lemma_reclaim_keeps_next_out(v.set_done(i));
}

/// Setting the status bit of a record beyond the write frontier commutes with
/// committing.
proof fn lemma_commit_absorbs(u: ArenaView, x: int)
    requires
        u.write_count <= x < u.records.len(),
        !u.records[x].done,
    ensures
        u.commit().set_done(x).commit() == u.set_done(x).commit(),
        u.commit().records.len() == u.records.len(),
    decreases u.records.len() - u.write_count,
{
    let w = u.write_count as int;
    if w < u.records.len() && u.records[w].done {
        let next = ArenaView {
            records: u.records.update(w, u.records[w].with_done(false)),
            write_count: (w + 1) as nat,
            ..u
        };
        lemma_commit_absorbs(next, x);
        let sx = u.set_done(x);
        assert(sx.write_count < sx.records.len() && sx.records[w].done);
        let sx_next = ArenaView {
            records: sx.records.update(w, sx.records[w].with_done(false)),
            write_count: (w + 1) as nat,
            ..sx
        };
        assert(sx_next.records =~= next.set_done(x).records);
        assert(sx_next == next.set_done(x));
    } else {
        assert(u.commit() == u);
    }
}

/// The order in which two writers finish does not matter: the arena ends in
/// the same state either way, so readers see the records in reservation order.
pub proof fn lemma_finish_write_commutes(v: ArenaView, i: int, k: int)
    requires
        v.wf(),
        v.write_count <= i < v.records.len(),
        v.write_count <= k < v.records.len(),
        i != k,
        !v.records[i].done,
        !v.records[k].done,
    ensures
        v.finish_write(i).finish_write(k) == v.finish_write(k).finish_write(i),
{
    lemma_commit_absorbs(v.set_done(i), k);
    lemma_commit_absorbs(v.set_done(k), i);
    assert(v.set_done(i).set_done(k).records =~= v.set_done(k).set_done(i).records);
    assert(v.set_done(i).set_done(k) == v.set_done(k).set_done(i));
}

/// Reclaiming never frees a record that a reader still holds, nor any record
/// after it.
pub proof fn lemma_reclaim_stops(v: ArenaView, k: int)
    requires
        0 <= k < v.read_count,
        v.read_count <= v.write_count <= v.records.len(),
        !v.records[k].done,
    ensures
        v.reclaim().first <= v.first + k,
        v.reclaim().first + v.reclaim().records.len() == v.first + v.records.len(),
        v.reclaim().first + v.reclaim().read_count == v.first + v.read_count,
        v.reclaim().records[v.first + k - v.reclaim().first] == v.records[k],
    decreases v.read_count,
{
    if 0 < v.read_count && 0 < v.records.len() && v.records[0].done {
        let next = ArenaView {
            first: v.first + 1,
            records: v.records.drop_first(),
            read_count: (v.read_count - 1) as nat,
            write_count: (v.write_count - 1) as nat,
            ..v
        };
        lemma_reclaim_stops(next, k - 1);
    }
}

/// Space is reclaimed in consumption order: when the reader of a record
/// finishes while an earlier record is still held, neither is reclaimed.
pub proof fn lemma_reclaim_fifo(v: ArenaView, earlier: int, later: int)
    requires
        v.wf(),
        0 <= earlier < later < v.read_count,
        !v.records[earlier].done,
        !v.records[later].done,
    ensures
        v.finish_read(later).first <= v.first + earlier,
{
    lemma_reclaim_stops(v.set_done(later), earlier);
}

/// Setting the status bit of a record that a reader holds commutes with
/// reclaiming.
proof fn lemma_reclaim_absorbs(u: ArenaView, s: int)
    requires
        u.first <= s < u.first + u.read_count,
        u.read_count <= u.write_count <= u.records.len(),
        !u.records[s - u.first].done,
    ensures
        u.reclaim().set_done(s - u.reclaim().first).reclaim() == u.set_done(s - u.first).reclaim(),
    decreases u.read_count,
{
    if 0 < u.read_count && 0 < u.records.len() && u.records[0].done {
        let next = ArenaView {
            first: u.first + 1,
            records: u.records.drop_first(),
            read_count: (u.read_count - 1) as nat,
            write_count: (u.write_count - 1) as nat,
            ..u
        };
        lemma_reclaim_absorbs(next, s);
        let sx = u.set_done(s - u.first);
        assert(0 < sx.read_count && 0 < sx.records.len() && sx.records[0].done);
        let sx_next = ArenaView {
            first: sx.first + 1,
            records: sx.records.drop_first(),
            read_count: (sx.read_count - 1) as nat,
            write_count: (sx.write_count - 1) as nat,
            ..sx
        };
        assert(sx_next.records =~= next.set_done(s - next.first).records);
        assert(sx_next == next.set_done(s - next.first));
    } else {
        assert(u.reclaim() == u);
    }
}

/// The order in which two readers finish does not matter: the arena ends in
/// the same state either way.
pub proof fn lemma_finish_read_commutes(v: ArenaView, a: int, b: int)
    requires
        v.wf(),
        v.first <= a < v.first + v.read_count,
        v.first <= b < v.first + v.read_count,
        a != b,
        !v.records[a - v.first].done,
        !v.records[b - v.first].done,
    ensures
        v.finish_read_seq(a).finish_read_seq(b) == v.finish_read_seq(b).finish_read_seq(a),
{
    lemma_reclaim_absorbs(v.set_done(a - v.first), b);
    lemma_reclaim_absorbs(v.set_done(b - v.first), a);
    assert(v.set_done(a - v.first).set_done(b - v.first).records =~= v.set_done(
        b - v.first,
    ).set_done(a - v.first).records);
    assert(v.set_done(a - v.first).set_done(b - v.first) == v.set_done(b - v.first).set_done(
        a - v.first,
    ));
}

/// Bytes taken by one record per payload.
pub open spec fn spans_of(ps: Seq<Seq<u8>>) -> nat
    decreases ps.len(),
{
    if ps.len() == 0 {
        0
    } else {
        span(ps[0].len()) + spans_of(ps.drop_first())
    }
}

/// The payloads of a sequence of records.
pub open spec fn payloads(s: Seq<RecordView>) -> Seq<Seq<u8>> {
    s.map_values(|r: RecordView| r.payload)
}

/// Reserves, fills and finishes one record per payload, in order, each record
/// starting out with the matching bytes of `initial`; `None` when a
/// reservation is refused.
pub open spec fn produce(v: ArenaView, ps: Seq<Seq<u8>>, initial: Seq<Seq<u8>>) -> Option<
    ArenaView,
>
    decreases ps.len(),
{
    if ps.len() == 0 {
        Some(v)
    } else if !v.admits(ps[0].len()) {
        None
    } else {
        let i = v.records.len() as int;
        let next = v.reserved(ps[0].len(), initial[0]).written(i, 0, ps[0]).finish_write(i);
        produce(next, ps.drop_first(), initial.drop_first())
    }
}

/// Takes `n` records in turn, each handed to a reader and given back at once,
/// and collects their payloads.
pub open spec fn drain(v: ArenaView, n: nat) -> Seq<Seq<u8>>
    decreases n,
{
    if n == 0 {
        Seq::empty()
    } else {
        let i = v.read_count as int;
        seq![v.records[i].payload] + drain(v.consumed().finish_read(i), (n - 1) as nat)
    }
}

/// Producing into an arena whose records are all visible and none is held
/// appends one visible record per payload.
proof fn lemma_produce(v: ArenaView, ps: Seq<Seq<u8>>, initial: Seq<Seq<u8>>)
    requires
        v.wf(),
        v.read_count == 0,
        v.write_count == v.records.len(),
        v.used() + spans_of(ps) <= v.capacity,
        initial.len() == ps.len(),
        forall|k: int| 0 <= k < ps.len() ==> length_fits(#[trigger] ps[k].len() as int),
        forall|k: int| 0 <= k < ps.len() ==> (#[trigger] initial[k]).len() == ps[k].len(),
    ensures
        produce(v, ps, initial) is Some,
        produce(v, ps, initial).unwrap().wf(),
        produce(v, ps, initial).unwrap().read_count == 0,
        produce(v, ps, initial).unwrap().write_count == produce(v, ps, initial).unwrap().records.len(),
        payloads(produce(v, ps, initial).unwrap().records) == payloads(v.records) + ps,
    decreases ps.len(),
{
    if ps.len() == 0 {
        assert(payloads(v.records) + ps =~= payloads(v.records));
    } else {
        let p = ps[0];
        let len = p.len();
        let n = v.records.len() as int;
        assert(length_fits(ps[0].len() as int));
        assert(initial[0].len() == len);
        let v1 = v.reserved(len, initial[0]);
        lemma_prefix_span_lens(v.records, v1.records, n);
        lemma_prefix_span_next(v1.records, n);
        assert(v1.used() == v.used() + span(len));
        lemma_prefix_span_aligned(v1.records, n + 1);
        let v2 = v1.written(n, 0, p);
        assert(v2.records[n].payload =~= p);
        let v2d = ArenaView {
            records: v2.records.update(n, v2.records[n].with_done(true)),
            ..v2
        };
        v2d.lemma_commit_run(n + 1);
        let v3 = v2.finish_write(n);
        let rec = RecordView { start: v.reservation, len, done: false, payload: p };
        assert(v3.records =~= v.records.push(rec));
        lemma_prefix_span_lens(v1.records, v3.records, n + 1);
        assert(v3.used() == v1.used());
        assert(v3.wf());
        assert(v.admits(len));
        lemma_produce(v3, ps.drop_first(), initial.drop_first());
        assert(payloads(v.records.push(rec)) =~= payloads(v.records).push(p));
        assert(payloads(v.records) + ps =~= payloads(v.records).push(p) + ps.drop_first());
    }
}

/// Draining an arena whose records are all visible and none is held yields
/// their payloads in order.
proof fn lemma_drain(v: ArenaView, n: nat)
    requires
        v.read_count == 0,
        v.write_count == v.records.len(),
        n <= v.records.len(),
        forall|j: int| 0 <= j < v.records.len() ==> !(#[trigger] v.records[j]).done,
    ensures
        drain(v, n) == payloads(v.records).take(n as int),
    decreases n,
{
    if n == 0 {
        assert(payloads(v.records).take(0) =~= Seq::<Seq<u8>>::empty());
    } else {
        let c = v.consumed();
        let d = ArenaView { records: c.records.update(0, c.records[0].with_done(true)), ..c };
        d.lemma_reclaim_run(1);
        let next = v.consumed().finish_read(0);
        assert(next.records =~= v.records.subrange(1, v.records.len() as int));
        lemma_drain(next, (n - 1) as nat);
        assert(payloads(v.records).take(n as int) =~= seq![v.records[0].payload] + payloads(
            next.records,
        ).take(n - 1));
    }
}

/// Round trip: payloads of any lengths, reserved, filled and finished in order
/// in an arena with no live records (wherever its cursors stand, so records
/// may cross the end of the lap), are all admitted when their spans fit in the
/// capacity, and come back from the readers unchanged, in the same order.
pub proof fn lemma_round_trip(v: ArenaView, ps: Seq<Seq<u8>>, initial: Seq<Seq<u8>>)
    requires
        v.wf(),
        v.records.len() == 0,
        spans_of(ps) <= v.capacity,
        initial.len() == ps.len(),
        forall|k: int| 0 <= k < ps.len() ==> length_fits(#[trigger] ps[k].len() as int),
        forall|k: int| 0 <= k < ps.len() ==> (#[trigger] initial[k]).len() == ps[k].len(),
    ensures
        produce(v, ps, initial) is Some,
        drain(produce(v, ps, initial).unwrap(), ps.len()) == ps,
{
    assert(v.used() == 0) by {
        reveal(crate::model::prefix_span);
    }
    lemma_produce(v, ps, initial);
    let w = produce(v, ps, initial).unwrap();
    assert(payloads(v.records) =~= Seq::<Seq<u8>>::empty());
    assert(payloads(w.records) =~= ps);
    lemma_drain(w, ps.len());
    assert(payloads(w.records).take(ps.len() as int) =~= ps);
}

/// Capacity safety: a reservation is refused whenever the bytes of the
/// records not yet reclaimed, with those of the new one, would exceed the
/// capacity; an admitted one keeps the arena well formed, under its capacity,
/// and leaves every live record as it was.
pub proof fn lemma_capacity_safety(v: ArenaView, len: nat, initial: Seq<u8>)
    requires
        v.wf(),
        initial.len() == len,
    ensures
        v.used() + span(len) > v.capacity ==> !v.admits(len),
        v.admits(len) ==> {
            let w = v.reserved(len, initial);
            &&& w.wf()
            &&& w.used() == v.used() + span(len)
            &&& w.used() <= w.capacity
            &&& w.records.subrange(0, v.records.len() as int) == v.records
        },
{
    if v.admits(len) {
        let n = v.records.len() as int;
        let w = v.reserved(len, initial);
        lemma_prefix_span_lens(v.records, w.records, n);
        lemma_prefix_span_next(w.records, n);
        lemma_prefix_span_aligned(w.records, n + 1);
        assert(w.records.subrange(0, n) =~= v.records);
    }
}

/// The arena after the writers of the records at the indices in `order`
/// finish, one after another.
pub open spec fn finish_writes(v: ArenaView, order: Seq<int>) -> ArenaView
    decreases order.len(),
{
    if order.len() == 0 {
        v
    } else {
        finish_writes(v.finish_write(order[0]), order.drop_first())
    }
}

/// Committing clears the run of finished records after the write frontier and
/// stops at the first unfinished one.
proof fn lemma_commit_shape(u: ArenaView)
    requires
        u.write_count <= u.records.len(),
    ensures
        u.write_count <= u.commit().write_count <= u.records.len(),
        forall|j: int|
            u.write_count <= j < u.commit().write_count ==> (#[trigger] u.records[j]).done,
        u.commit().write_count < u.records.len() ==> !u.records[u.commit().write_count as int].done,
        u.commit() == (ArenaView {
            records: cleared(u.records, u.write_count as int, u.commit().write_count as int),
            write_count: u.commit().write_count,
            ..u
        }),
    decreases u.records.len() - u.write_count,
{
    let w = u.write_count as int;
    if w < u.records.len() && u.records[w].done {
        let next = ArenaView {
            records: u.records.update(w, u.records[w].with_done(false)),
            write_count: (w + 1) as nat,
            ..u
        };
        lemma_commit_shape(next);
        let k = u.commit().write_count as int;
        assert forall|j: int| w <= j < k implies (#[trigger] u.records[j]).done by {
            if j > w {
                assert(next.records[j] == u.records[j]);
            }
        }
        assert(cleared(next.records, w + 1, k) =~= cleared(u.records, w, k));
    } else {
        assert(cleared(u.records, w, w) =~= u.records);
    }
}

/// Finishing the writers of exactly the records that are not yet finished
/// beyond the write frontier, in the given order, makes them all visible.
proof fn lemma_finish_writes(u: ArenaView, order: Seq<int>)
    requires
        u.write_count <= u.records.len(),
        u.write_count < u.records.len() ==> !u.records[u.write_count as int].done,
        forall|p: int, q: int| 0 <= p < q < order.len() ==> order[p] != order[q],
        forall|p: int| 0 <= p < order.len() ==> u.write_count <= #[trigger] order[p] < u.records.len(),
        forall|j: int|
            u.write_count <= j < u.records.len() ==> (#[trigger] u.records[j]).done == !order.contains(j),
    ensures
        finish_writes(u, order) == (ArenaView {
            records: cleared(u.records, u.write_count as int, u.records.len() as int),
            write_count: u.records.len(),
            ..u
        }),
    decreases order.len(),
{
    let n = u.records.len() as int;
    let w = u.write_count as int;
    if order.len() == 0 {
        if w < n {
            assert(!order.contains(w));
        }
        assert(cleared(u.records, w, n) =~= u.records);
    } else {
        let x = order[0];
        let rest = order.drop_first();
        let s = u.set_done(x);
        lemma_commit_shape(s);
        let c = s.commit();
        let k = c.write_count as int;
        assert forall|j: int| 0 <= j < n implies order.contains(j) == (j == x || rest.contains(j)) by {
            if order.contains(j) {
                let p = choose|p: int| 0 <= p < order.len() && order[p] == j;
                if p > 0 {
                    assert(rest[p - 1] == j);
                }
            }
            if rest.contains(j) {
                let p = choose|p: int| 0 <= p < rest.len() && rest[p] == j;
                assert(order[p + 1] == j);
            }
        }
        assert forall|p: int| 0 <= p < rest.len() implies k <= #[trigger] rest[p] < n by {
            let y = rest[p];
            assert(y == order[p + 1]);
            assert(order[0] != order[p + 1]);
            assert(order.contains(y));
            assert(!u.records[y].done);
            assert(s.records[y] == u.records[y]);
            if y < k {
                assert(s.records[y].done);
            }
        }
        assert forall|j: int| k <= j < n implies (#[trigger] c.records[j]).done == !rest.contains(j) by {
            assert(c.records[j] == s.records[j]);
        }
        assert forall|p: int, q: int| 0 <= p < q < rest.len() implies rest[p] != rest[q] by {
            assert(rest[p] == order[p + 1] && rest[q] == order[q + 1]);
        }
        lemma_finish_writes(c, rest);
        assert(cleared(c.records, k, n) =~= cleared(u.records, w, n));
    }
}

/// Readers see records in reservation order whatever order their writers
/// finish in: finishing every record still being written, in any order,
/// makes them all visible, each with its payload, in one and the same state.
pub proof fn lemma_fifo_any_finish_order(v: ArenaView, order: Seq<int>)
    requires
        v.wf(),
        forall|j: int| v.write_count <= j < v.records.len() ==> !(#[trigger] v.records[j]).done,
        forall|p: int, q: int| 0 <= p < q < order.len() ==> order[p] != order[q],
        forall|p: int| 0 <= p < order.len() ==> v.write_count <= #[trigger] order[p] < v.records.len(),
        forall|j: int| v.write_count <= j < v.records.len() ==> order.contains(j),
    ensures
        finish_writes(v, order) == (ArenaView {
            records: cleared(v.records, v.write_count as int, v.records.len() as int),
            write_count: v.records.len(),
            ..v
        }),
        forall|j: int|
            0 <= j < v.records.len() ==> (#[trigger] finish_writes(v, order).records[j]).payload
                == v.records[j].payload,
{
    lemma_finish_writes(v, order);
}

/// The arena after the readers of the records numbered (in reservation order)
/// as in `order` give them back, one after another.
pub open spec fn finish_reads(v: ArenaView, order: Seq<int>) -> ArenaView
    decreases order.len(),
{
    if order.len() == 0 {
        v
    } else {
        finish_reads(v.finish_read_seq(order[0]), order.drop_first())
    }
}

/// Reclaiming drops the run of released records at the front and stops at the
/// first record still held.
proof fn lemma_reclaim_shape(u: ArenaView)
    requires
        u.read_count <= u.write_count <= u.records.len(),
    ensures
        u.first <= u.reclaim().first <= u.first + u.read_count,
        forall|j: int| 0 <= j < u.reclaim().first - u.first ==> (#[trigger] u.records[j]).done,
        u.reclaim().first - u.first < u.read_count ==> !u.records[u.reclaim().first - u.first].done,
        u.reclaim() == (ArenaView {
            first: u.reclaim().first,
            records: u.records.subrange(u.reclaim().first - u.first, u.records.len() as int),
            read_count: (u.read_count - (u.reclaim().first - u.first)) as nat,
            write_count: (u.write_count - (u.reclaim().first - u.first)) as nat,
            ..u
        }),
    decreases u.read_count,
{
    if 0 < u.read_count && 0 < u.records.len() && u.records[0].done {
        let next = ArenaView {
            first: u.first + 1,
            records: u.records.drop_first(),
            read_count: (u.read_count - 1) as nat,
            write_count: (u.write_count - 1) as nat,
            ..u
        };
        lemma_reclaim_shape(next);
        let m = u.reclaim().first - u.first;
        assert forall|j: int| 0 <= j < m implies (#[trigger] u.records[j]).done by {
            if j > 0 {
                assert(next.records[j - 1] == u.records[j]);
            }
        }
        if m < u.read_count {
            assert(next.records[m - 1] == u.records[m]);
        }
        assert(next.records.subrange(m - 1, next.records.len() as int) =~= u.records.subrange(
            m,
            u.records.len() as int,
        ));
    } else {
        assert(u.records.subrange(0, u.records.len() as int) =~= u.records);
    }
}

/// Giving back exactly the held records that are not yet released, in the
/// given order, reclaims every record handed to a reader.
proof fn lemma_finish_reads(u: ArenaView, order: Seq<int>)
    requires
        u.read_count <= u.write_count <= u.records.len(),
        0 < u.read_count ==> !u.records[0].done,
        forall|p: int, q: int| 0 <= p < q < order.len() ==> order[p] != order[q],
        forall|p: int|
            0 <= p < order.len() ==> u.first <= #[trigger] order[p] < u.first + u.read_count,
        forall|j: int|
            0 <= j < u.read_count ==> (#[trigger] u.records[j]).done == !order.contains(u.first + j),
    ensures
        finish_reads(u, order) == (ArenaView {
            first: u.first + u.read_count,
            records: u.records.subrange(u.read_count as int, u.records.len() as int),
            read_count: 0,
            write_count: (u.write_count - u.read_count) as nat,
            ..u
        }),
    decreases order.len(),
{
    let n = u.records.len() as int;
    let r = u.read_count as int;
    if order.len() == 0 {
        if 0 < r {
            assert(!order.contains(u.first + 0int));
        }
        assert(u.records.subrange(0, n) =~= u.records);
    } else {
        let x = order[0];
        let rest = order.drop_first();
        let s = u.set_done(x - u.first);
        lemma_reclaim_shape(s);
        let c = s.reclaim();
        let m = c.first - u.first;
        assert forall|y: int| #![trigger order.contains(y)] order.contains(y) == (y == x || rest.contains(y)) by {
            if order.contains(y) {
                let p = choose|p: int| 0 <= p < order.len() && order[p] == y;
                if p > 0 {
                    assert(rest[p - 1] == y);
                }
            }
            if rest.contains(y) {
                let p = choose|p: int| 0 <= p < rest.len() && rest[p] == y;
                assert(order[p + 1] == y);
            }
        }
        assert forall|p: int| 0 <= p < rest.len() implies c.first <= #[trigger] rest[p] < c.first
            + c.read_count by {
            let y = rest[p];
            assert(y == order[p + 1]);
            assert(order[0] != order[p + 1]);
            assert(order.contains(y));
            assert(!u.records[y - u.first].done);
            assert(s.records[y - u.first] == u.records[y - u.first]);
            if y - u.first < m {
                assert(s.records[y - u.first].done);
            }
        }
        assert forall|j: int| 0 <= j < c.read_count implies (#[trigger] c.records[j]).done
            == !rest.contains(c.first + j) by {
            assert(c.records[j] == s.records[j + m]);
            assert(order.contains(u.first + j + m) == (u.first + j + m == x || rest.contains(
                u.first + j + m,
            )));
        }
        assert forall|p: int, q: int| 0 <= p < q < rest.len() implies rest[p] != rest[q] by {
            assert(rest[p] == order[p + 1] && rest[q] == order[q + 1]);
        }
        if 0 < c.read_count {
            assert(c.records[0] == s.records[m]);
        }
        lemma_finish_reads(c, rest);
        assert(c.records.subrange(r - m, n - m) =~= u.records.subrange(r, n));
    }
}

/// Space is reclaimed in consumption order whatever order readers give
/// records back in: giving back every record handed to a reader, in any
/// order, reclaims them all and leaves the rest of the arena as it was, in
/// one and the same state.
pub proof fn lemma_reclaim_any_release_order(v: ArenaView, order: Seq<int>)
    requires
        v.wf(),
        forall|j: int| 0 <= j < v.read_count ==> !(#[trigger] v.records[j]).done,
        forall|p: int, q: int| 0 <= p < q < order.len() ==> order[p] != order[q],
        forall|p: int|
            0 <= p < order.len() ==> v.first <= #[trigger] order[p] < v.first + v.read_count,
        forall|s: int| v.first <= s < v.first + v.read_count ==> order.contains(s),
    ensures
        finish_reads(v, order) == (ArenaView {
            first: v.first + v.read_count,
            records: v.records.subrange(v.read_count as int, v.records.len() as int),
            read_count: 0,
            write_count: (v.write_count - v.read_count) as nat,
            ..v
        }),
{
    assert forall|j: int| 0 <= j < v.read_count implies (#[trigger] v.records[j]).done
        == !order.contains(v.first + j) by {
        assert(order.contains(v.first + j));
    }
    lemma_finish_reads(v, order);
}

} // verus!
