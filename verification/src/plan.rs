//! How a transfer is cut into segments and spread over parallel streams.

use vstd::prelude::*;
use vstd::multiset::Multiset;
use crate::sort::{
    in_order, insert_ranked, law_sort_permutes, law_stable_sorted, stable_sort, stable_sorted, Ranked,
};

verus! {

/// A local file to send, and the path it has for the receiver.
#[derive(Clone)]
pub struct SendEntry {
    pub path: String,
    pub rel: String,
    pub size: u64,
}

/// A range of a file that one stream sends in one go.
#[derive(Clone)]
pub struct Segment {
    pub path: String,
    pub rel: String,
    pub offset: u64,
    pub len: u64,
    pub size: u64,
}

/// A file is cut only into pieces of at least this many bytes.
pub const MIN_SEG: u64 = 8 * 1024 * 1024;

/// How many streams are used where the request names no number.
pub const DEFAULT_STREAMS: u32 = 4;

/// How many streams are used at most.
pub const MAX_STREAMS: u32 = 8;

/// The number of streams that a request stands for.
pub open spec fn stream_limit(streams: Option<u32>) -> nat {
    let n = match streams {
        Some(k) => k,
        None => DEFAULT_STREAMS,
    };
    if n < 1 {
        1
    } else if n > MAX_STREAMS {
        MAX_STREAMS as nat
    } else {
        n as nat
    }
}

/// Into how many pieces a file of `size` bytes is cut: one per stream, but no
/// more than leaves each piece large enough.
pub open spec fn piece_count(size: nat, streams: nat) -> nat {
    if size < 2 * MIN_SEG {
        1
    } else if streams <= size / (MIN_SEG as nat) {
        streams
    } else {
        size / (MIN_SEG as nat)
    }
}

/// The `i`-th of `count` pieces: all are of the same length but the last one,
/// which takes the rest.
pub open spec fn piece(e: SendEntry, count: nat, i: int) -> Segment {
    let part = e.size as int / count as int;
    Segment {
        path: e.path,
        rel: e.rel,
        offset: (i * part) as u64,
        len: if i == count - 1 {
            (e.size - i * part) as u64
        } else {
            part as u64
        },
        size: e.size,
    }
}

/// The pieces of a file, in order.
pub open spec fn pieces(e: SendEntry, streams: nat) -> Seq<Segment> {
    let count = piece_count(e.size as nat, streams);
    Seq::new(count, |i: int| piece(e, count, i))
}

/// The pieces of all files, file by file.
pub open spec fn all_pieces(entries: Seq<SendEntry>, streams: nat) -> Seq<Segment>
    decreases entries.len(),
{
    if entries.len() == 0 {
        Seq::empty()
    } else {
        all_pieces(entries.drop_last(), streams) + pieces(entries.last(), streams)
    }
}

/// The bytes of all files together.
pub open spec fn total_size(entries: Seq<SendEntry>) -> nat
    decreases entries.len(),
{
    if entries.len() == 0 {
        0
    } else {
        total_size(entries.drop_last()) + entries.last().size as nat
    }
}

/// The bytes of all segments together.
pub open spec fn total_len(segs: Seq<Segment>) -> nat
    decreases segs.len(),
{
    if segs.len() == 0 {
        0
    } else {
        total_len(segs.drop_last()) + segs.last().len as nat
    }
}

proof fn lemma_piece_bounds(size: int, count: int, i: int)
    requires
        0 <= size,
        0 < count,
        0 <= i < count,
    ensures
        0 <= size / count,
        0 <= i * (size / count) <= size,
        (i + 1) * (size / count) <= size,
        (i + 1) * (size / count) == i * (size / count) + size / count,
{
    let part = size / count;
    assert(part >= 0 && count * part <= size) by (nonlinear_arith)
        requires
            part == size / count,
            0 <= size,
            0 < count,
    ;
    assert(0 <= i * part && (i + 1) * part <= count * part && (i + 1) * part == i * part + part)
        by (nonlinear_arith)
        requires
            0 <= i < count,
            part >= 0,
    ;
}

proof fn lemma_piece_count(size: nat, streams: nat)
    requires
        streams >= 1,
    ensures
        piece_count(size, streams) >= 1,
        piece_count(size, streams) <= streams,
        piece_count(size, streams) > 1 ==> piece_count(size, streams) * MIN_SEG <= size,
{
    let m = MIN_SEG as nat;
    assert(size >= 2 * m ==> size / m >= 2) by (nonlinear_arith)
        requires
            m > 0,
    ;
    assert((size / m) * m <= size) by (nonlinear_arith)
        requires
            m > 0,
    ;
    let c = piece_count(size, streams);
    if c > 1 {
        assert(c * m <= (size / m) * m) by (nonlinear_arith)
            requires
                c <= size / m,
        ;
    }
}

/// The pieces of a file lie end to end: the first starts at its start, each
/// starts where the one before it ends, and the last ends at its end.
pub proof fn law_pieces_tile(e: SendEntry, streams: nat)
    requires
        streams >= 1,
    ensures
        1 <= pieces(e, streams).len() <= streams,
        pieces(e, streams)[0].offset == 0,
        forall|i: int|
            #![trigger pieces(e, streams)[i]]
            0 <= i < pieces(e, streams).len() - 1 ==> pieces(e, streams)[i].offset + pieces(
                e,
                streams,
            )[i].len == pieces(e, streams)[i + 1].offset,
        pieces(e, streams).last().offset + pieces(e, streams).last().len == e.size,
        forall|i: int|
            0 <= i < pieces(e, streams).len() ==> (#[trigger] pieces(e, streams)[i]).path == e.path
                && pieces(e, streams)[i].rel == e.rel && pieces(e, streams)[i].size == e.size
                && pieces(e, streams)[i].offset + pieces(e, streams)[i].len <= e.size,
{
    let size = e.size as nat;
    lemma_piece_count(size, streams);
    let c = piece_count(size, streams) as int;
    let ps = pieces(e, streams);
    assert forall|i: int| #![trigger ps[i]] 0 <= i < ps.len() - 1 implies ps[i].offset + ps[i].len
        == ps[i + 1].offset by {
        lemma_piece_bounds(size as int, c, i);
        lemma_piece_bounds(size as int, c, i + 1);
    }
    assert forall|i: int| 0 <= i < ps.len() implies (#[trigger] ps[i]).path == e.path && ps[i].rel
        == e.rel && ps[i].size == e.size && ps[i].offset + ps[i].len <= e.size by {
        lemma_piece_bounds(size as int, c, i);
    }
    lemma_piece_bounds(size as int, c, 0);
    lemma_piece_bounds(size as int, c, c - 1);
}

/// A file that is cut at all is cut into pieces of at least [`MIN_SEG`] bytes.
pub proof fn law_pieces_large(e: SendEntry, streams: nat, i: int)
    requires
        streams >= 1,
        pieces(e, streams).len() > 1,
        0 <= i < pieces(e, streams).len(),
    ensures
        pieces(e, streams)[i].len >= MIN_SEG,
{
    let size = e.size as nat;
    lemma_piece_count(size, streams);
    let c = piece_count(size, streams) as int;
    let m = MIN_SEG as int;
    let part = size as int / c;
    assert(part >= m) by (nonlinear_arith)
        requires
            c * m <= size,
            c > 0,
            part == size as int / c,
    ;
    lemma_piece_bounds(size as int, c, i);
}

/// A file below 16 MiB is not cut. A larger one is cut into as many pieces as
/// there are streams, unless that many would not all have 8 MiB; then it has as
/// many as can have.
pub proof fn law_cut_as_far_as_worth_it(e: SendEntry, streams: nat)
    requires
        streams >= 1,
    ensures
        e.size < 16777216 ==> pieces(e, streams).len() == 1,
        e.size >= 16777216 ==> pieces(e, streams).len() == streams || (pieces(e, streams).len() < streams
            && (pieces(e, streams).len() + 1) * 8388608 > e.size),
        pieces(e, streams).len() > 1 ==> pieces(e, streams).len() * 8388608 <= e.size,
        forall|i: int|
            pieces(e, streams).len() > 1 && 0 <= i < pieces(e, streams).len() ==> (#[trigger] pieces(
                e,
                streams,
            )[i]).len >= 8388608,
{
    let size = e.size as nat;
    lemma_piece_count(size, streams);
    assert((size / 8388608 + 1) * 8388608 > size) by (nonlinear_arith);
    assert forall|i: int|
        pieces(e, streams).len() > 1 && 0 <= i < pieces(e, streams).len() implies (#[trigger] pieces(
        e,
        streams,
    )[i]).len >= 8388608 by {
        law_pieces_large(e, streams, i);
    }
}

/// The pieces of a file are of one length, but for the last, which has less than
/// one byte more for each piece.
pub proof fn law_pieces_even(e: SendEntry, streams: nat, i: int)
    requires
        streams >= 1,
        0 <= i < pieces(e, streams).len(),
    ensures
        i < pieces(e, streams).len() - 1 ==> pieces(e, streams)[i].len == pieces(e, streams)[0].len,
        pieces(e, streams)[0].len <= pieces(e, streams).last().len,
        pieces(e, streams).last().len < pieces(e, streams)[0].len + pieces(e, streams).len(),
{
    let size = e.size as int;
    lemma_piece_count(size as nat, streams);
    let c = piece_count(size as nat, streams) as int;
    let part = size / c;
    lemma_piece_bounds(size, c, 0);
    lemma_piece_bounds(size, c, c - 1);
    lemma_piece_bounds(size, c, i);
    assert(size - (c - 1) * part < part + c) by (nonlinear_arith)
        requires
            part == size / c,
            0 < c,
            0 <= size,
    ;
}

/// Every byte of a file lies in exactly one of its pieces.
pub proof fn law_each_byte_once(e: SendEntry, streams: nat, b: int)
    requires
        streams >= 1,
        0 <= b < e.size,
    ensures
        exists|i: int| 0 <= i < pieces(e, streams).len() && covers(#[trigger] pieces(e, streams)[i], b),
        forall|i: int, j: int|
            0 <= i < pieces(e, streams).len() && 0 <= j < pieces(e, streams).len() && covers(
                #[trigger] pieces(e, streams)[i],
                b,
            ) && covers(#[trigger] pieces(e, streams)[j], b) ==> i == j,
{
    law_pieces_tile(e, streams);
    let ps = pieces(e, streams);
    lemma_covered(ps, b, ps.len() - 1);
    assert forall|i: int, j: int|
        0 <= i < ps.len() && 0 <= j < ps.len() && covers(#[trigger] ps[i], b) && covers(
            #[trigger] ps[j],
            b,
        ) implies i == j by {
        if i < j {
            lemma_offsets_grow(ps, i, j);
        } else if j < i {
            lemma_offsets_grow(ps, j, i);
        }
    }
}

/// Whether a byte of a file lies in a segment of it.
pub open spec fn covers(s: Segment, b: int) -> bool {
    s.offset <= b < s.offset + s.len
}

proof fn lemma_covered(ps: Seq<Segment>, b: int, last: int)
    requires
        0 <= last < ps.len(),
        ps[0].offset == 0,
        0 <= b < ps[last].offset + ps[last].len,
        forall|i: int|
            #![trigger ps[i]]
            0 <= i < ps.len() - 1 ==> ps[i].offset + ps[i].len == ps[i + 1].offset,
    ensures
        exists|i: int| 0 <= i < ps.len() && covers(#[trigger] ps[i], b),
    decreases last,
{
    if b >= ps[last].offset {
        assert(covers(ps[last], b));
    } else {
        assert(ps[last - 1].offset + ps[last - 1].len == ps[last - 1 + 1].offset);
        lemma_covered(ps, b, last - 1);
    }
}

proof fn lemma_offsets_grow(ps: Seq<Segment>, i: int, j: int)
    requires
        0 <= i < j < ps.len(),
        forall|i: int|
            #![trigger ps[i]]
            0 <= i < ps.len() - 1 ==> ps[i].offset + ps[i].len == ps[i + 1].offset,
    ensures
        ps[i].offset + ps[i].len <= ps[j].offset,
    decreases j - i,
{
    assert(ps[i].offset + ps[i].len == ps[i + 1].offset);
    if i + 1 < j {
        lemma_offsets_grow(ps, i + 1, j);
    }
}

proof fn lemma_total_len_concat(a: Seq<Segment>, b: Seq<Segment>)
    ensures
        total_len(a + b) == total_len(a) + total_len(b),
    decreases b.len(),
{
    if b.len() == 0 {
        assert(a + b =~= a);
    } else {
        assert((a + b).drop_last() =~= a + b.drop_last());
        lemma_total_len_concat(a, b.drop_last());
    }
}

proof fn lemma_tile_len(ps: Seq<Segment>)
    requires
        ps.len() > 0,
        ps[0].offset == 0,
        forall|i: int|
            #![trigger ps[i]]
            0 <= i < ps.len() - 1 ==> ps[i].offset + ps[i].len == ps[i + 1].offset,
    ensures
        total_len(ps) == ps.last().offset + ps.last().len,
    decreases ps.len(),
{
    let init = ps.drop_last();
    if init.len() == 0 {
        assert(total_len(init) == 0);
    } else {
        assert forall|i: int| #![trigger init[i]] 0 <= i < init.len() - 1 implies init[i].offset
            + init[i].len == init[i + 1].offset by {
            assert(ps[i].offset + ps[i].len == ps[i + 1].offset);
        }
        lemma_tile_len(init);
        let k = ps.len() - 2;
        assert(ps[k].offset + ps[k].len == ps[k + 1].offset);
    }
}

/// The pieces of all files have as many bytes as the files.
pub proof fn law_pieces_total(entries: Seq<SendEntry>, streams: nat)
    requires
        streams >= 1,
    ensures
        total_len(all_pieces(entries, streams)) == total_size(entries),
    decreases entries.len(),
{
    if entries.len() > 0 {
        law_pieces_total(entries.drop_last(), streams);
        law_pieces_tile(entries.last(), streams);
        lemma_tile_len(pieces(entries.last(), streams));
        lemma_total_len_concat(
            all_pieces(entries.drop_last(), streams),
            pieces(entries.last(), streams),
        );
    }
}

impl Ranked for Segment {
    /// Larger segments come first.
    open spec fn leq(&self, other: &Self) -> bool {
        self.len >= other.len
    }

    proof fn leq_total(a: &Self, b: &Self) {
    }

    proof fn leq_transitive(a: &Self, b: &Self, c: &Self) {
    }

    fn may_precede(&self, other: &Self) -> (r: bool) {
        self.len >= other.len
    }
}

/// What a segment adds to the load of its stream: its length, but never
/// nothing.
pub open spec fn weight(s: Segment) -> nat {
    if s.len == 0 {
        1
    } else {
        s.len as nat
    }
}

/// The first of the least loaded streams.
pub open spec fn least(loads: Seq<nat>) -> int
    decreases loads.len(),
{
    if loads.len() <= 1 {
        0
    } else {
        let k = least(loads.drop_last());
        if loads.last() < loads[k] {
            loads.len() - 1
        } else {
            k
        }
    }
}

/// Streams with their segments and loads.
pub struct Spread {
    pub buckets: Seq<Seq<Segment>>,
    pub loads: Seq<nat>,
}

/// The segments dealt out to `n` streams, each to the first of those that have
/// the least to send so far.
pub open spec fn spread(segs: Seq<Segment>, n: nat) -> Spread
    decreases segs.len(),
{
    if segs.len() == 0 {
        Spread {
            buckets: Seq::new(n, |i: int| Seq::<Segment>::empty()),
            loads: Seq::new(n, |i: int| 0nat),
        }
    } else {
        let before = spread(segs.drop_last(), n);
        let k = least(before.loads);
        Spread {
            buckets: before.buckets.update(k, before.buckets[k].push(segs.last())),
            loads: before.loads.update(k, before.loads[k] + weight(segs.last())),
        }
    }
}

/// The segments of all streams.
pub open spec fn pooled(buckets: Seq<Seq<Segment>>) -> Multiset<Segment>
    decreases buckets.len(),
{
    if buckets.len() == 0 {
        Multiset::empty()
    } else {
        pooled(buckets.drop_last()).add(buckets.last().to_multiset())
    }
}

/// What the segments of one stream add up to.
pub open spec fn load_of(segs: Seq<Segment>) -> nat
    decreases segs.len(),
{
    if segs.len() == 0 {
        0
    } else {
        load_of(segs.drop_last()) + weight(segs.last())
    }
}

/// How many streams have nothing to send.
pub open spec fn idle(buckets: Seq<Seq<Segment>>) -> nat
    decreases buckets.len(),
{
    if buckets.len() == 0 {
        0
    } else {
        idle(buckets.drop_last()) + (if buckets.last().len() == 0 {
            1nat
        } else {
            0nat
        })
    }
}

proof fn lemma_least(loads: Seq<nat>)
    requires
        loads.len() > 0,
    ensures
        0 <= least(loads) < loads.len(),
        forall|j: int| 0 <= j < loads.len() ==> loads[least(loads)] <= #[trigger] loads[j],
        forall|j: int| 0 <= j < least(loads) ==> loads[least(loads)] < #[trigger] loads[j],
    decreases loads.len(),
{
    if loads.len() > 1 {
        let init = loads.drop_last();
        lemma_least(init);
        let k = least(init);
        assert(init[k] == loads[k]);
        assert forall|j: int| 0 <= j < loads.len() implies loads[least(loads)] <= #[trigger] loads[j] by {
            if j < init.len() {
                assert(init[k] <= init[j]);
            }
        }
        assert forall|j: int| 0 <= j < least(loads) implies loads[least(loads)] < #[trigger] loads[j] by {
            if j < init.len() {
                assert(init[k] <= init[j]);
                if j < k {
                    assert(init[k] < init[j]);
                }
            }
        }
    }
}

proof fn lemma_pooled_update(buckets: Seq<Seq<Segment>>, k: int, s: Segment)
    requires
        0 <= k < buckets.len(),
    ensures
        pooled(buckets.update(k, buckets[k].push(s))) == pooled(buckets).insert(s),
    decreases buckets.len(),
{
    broadcast use vstd::seq_lib::to_multiset_build;

    let u = buckets.update(k, buckets[k].push(s));
    if k == buckets.len() - 1 {
        assert(u.drop_last() =~= buckets.drop_last());
        assert(pooled(u) =~= pooled(buckets).insert(s));
    } else {
        let init = buckets.drop_last();
        lemma_pooled_update(init, k, s);
        assert(u.drop_last() =~= init.update(k, init[k].push(s)));
        assert(pooled(u) =~= pooled(buckets).insert(s));
    }
}

proof fn lemma_pooled_empty(n: nat)
    ensures
        pooled(Seq::new(n, |i: int| Seq::<Segment>::empty())) == Multiset::<Segment>::empty(),
    decreases n,
{
    let b = Seq::new(n, |i: int| Seq::<Segment>::empty());
    if n > 0 {
        lemma_pooled_empty((n - 1) as nat);
        assert(b.drop_last() =~= Seq::new((n - 1) as nat, |i: int| Seq::<Segment>::empty()));
        Seq::<Segment>::empty().to_multiset_ensures();
        assert(pooled(b) =~= Multiset::<Segment>::empty());
    }
}

proof fn lemma_idle_update(buckets: Seq<Seq<Segment>>, k: int, s: Segment)
    requires
        0 <= k < buckets.len(),
    ensures
        idle(buckets.update(k, buckets[k].push(s))) == idle(buckets) - (if buckets[k].len() == 0 {
            1int
        } else {
            0int
        }),
    decreases buckets.len(),
{
    let u = buckets.update(k, buckets[k].push(s));
    if k == buckets.len() - 1 {
        assert(u.drop_last() =~= buckets.drop_last());
    } else {
        let init = buckets.drop_last();
        lemma_idle_update(init, k, s);
        assert(u.drop_last() =~= init.update(k, init[k].push(s)));
    }
}

proof fn lemma_idle_witness(buckets: Seq<Seq<Segment>>)
    ensures
        idle(buckets) > 0 <==> exists|i: int| 0 <= i < buckets.len() && (#[trigger] buckets[i]).len() == 0,
    decreases buckets.len(),
{
    if buckets.len() > 0 {
        let init = buckets.drop_last();
        lemma_idle_witness(init);
        if idle(init) > 0 {
            let w = choose|i: int| 0 <= i < init.len() && (#[trigger] init[i]).len() == 0;
            assert(buckets[w].len() == 0);
        }
        if exists|i: int| 0 <= i < buckets.len() && (#[trigger] buckets[i]).len() == 0 {
            let w = choose|i: int| 0 <= i < buckets.len() && (#[trigger] buckets[i]).len() == 0;
            if w < init.len() {
                assert(init[w].len() == 0);
            }
        }
        if buckets.last().len() == 0 {
            assert(buckets[buckets.len() - 1].len() == 0);
        }
    }
}

proof fn lemma_idle_all(n: nat)
    ensures
        idle(Seq::new(n, |i: int| Seq::<Segment>::empty())) == n,
    decreases n,
{
    if n > 0 {
        lemma_idle_all((n - 1) as nat);
        assert(Seq::new(n, |i: int| Seq::<Segment>::empty()).drop_last() =~= Seq::new(
            (n - 1) as nat,
            |i: int| Seq::<Segment>::empty(),
        ));
    }
}

proof fn lemma_load_positive(b: Seq<Segment>)
    ensures
        load_of(b) == 0 <==> b.len() == 0,
    decreases b.len(),
{
    if b.len() > 0 {
        lemma_load_positive(b.drop_last());
    }
}

/// Each stream's load is what its segments add up to.
pub proof fn law_loads_add_up(segs: Seq<Segment>, n: nat)
    requires
        n > 0,
    ensures
        spread(segs, n).buckets.len() == n,
        spread(segs, n).loads.len() == n,
        forall|i: int|
            0 <= i < n ==> #[trigger] spread(segs, n).loads[i] == load_of(spread(segs, n).buckets[i]),
    decreases segs.len(),
{
    if segs.len() > 0 {
        law_loads_add_up(segs.drop_last(), n);
        let before = spread(segs.drop_last(), n);
        lemma_least(before.loads);
        let k = least(before.loads);
        let b = before.buckets[k];
        assert(b.push(segs.last()).drop_last() =~= b);
        let after = spread(segs, n);
        assert forall|i: int| 0 <= i < n implies #[trigger] after.loads[i] == load_of(
            after.buckets[i],
        ) by {
            assert(before.loads[i] == load_of(before.buckets[i]));
        }
    }
}

/// What a segment adds to its stream is its length, or one where that is nothing,
/// and the load of a stream is what its segments add.
pub proof fn law_load_is_length(segs: Seq<Segment>, s: Segment)
    ensures
        weight(s) >= 1,
        s.len > 0 ==> weight(s) == s.len,
        s.len == 0 ==> weight(s) == 1,
        load_of(segs.push(s)) == load_of(segs) + weight(s),
        load_of(Seq::empty()) == 0,
{
    assert(segs.push(s).drop_last() =~= segs);
}

/// The next segment goes to the end of one stream: the first of those that have
/// no more to send than any other. The other streams stay as they are.
pub proof fn law_next_goes_to_least(segs: Seq<Segment>, s: Segment, n: nat)
    requires
        n > 0,
    ensures
        exists|k: int|
            0 <= k < n && spread(segs.push(s), n).buckets == spread(segs, n).buckets.update(
                k,
                (#[trigger] spread(segs, n).buckets[k]).push(s),
            ) && (forall|j: int|
                0 <= j < n ==> load_of(spread(segs, n).buckets[k]) <= load_of(
                    #[trigger] spread(segs, n).buckets[j],
                )) && (forall|j: int|
                0 <= j < k ==> load_of(spread(segs, n).buckets[k]) < load_of(
                    #[trigger] spread(segs, n).buckets[j],
                )),
        forall|j: int| 0 <= j < n ==> (#[trigger] spread(Seq::empty(), n).buckets[j]).len() == 0,
{
    let before = spread(segs, n);
    assert(segs.push(s).drop_last() =~= segs);
    law_loads_add_up(segs, n);
    lemma_least(before.loads);
    let k = least(before.loads);
    assert(before.loads[k] == load_of(before.buckets[k]));
    assert forall|j: int| 0 <= j < n implies load_of(before.buckets[k]) <= load_of(
        #[trigger] before.buckets[j],
    ) by {
        assert(before.loads[j] == load_of(before.buckets[j]));
    }
    assert forall|j: int| 0 <= j < k implies load_of(before.buckets[k]) < load_of(
        #[trigger] before.buckets[j],
    ) by {
        assert(before.loads[j] == load_of(before.buckets[j]));
    }
}

/// Every segment goes to exactly one stream.
pub proof fn law_every_segment_once(segs: Seq<Segment>, n: nat)
    requires
        n > 0,
    ensures
        pooled(spread(segs, n).buckets) == segs.to_multiset(),
    decreases segs.len(),
{
    broadcast use vstd::seq_lib::to_multiset_build;

    if segs.len() == 0 {
        lemma_pooled_empty(n);
        segs.to_multiset_ensures();
        assert(segs.to_multiset() =~= Multiset::<Segment>::empty());
    } else {
        let init = segs.drop_last();
        law_every_segment_once(init, n);
        law_loads_add_up(init, n);
        let before = spread(init, n);
        lemma_least(before.loads);
        lemma_pooled_update(before.buckets, least(before.loads), segs.last());
        assert(init.push(segs.last()) =~= segs);
    }
}

/// No stream has more to send than another by more than one segment: loads
/// differ by at most the largest weight.
pub proof fn law_loads_balanced(segs: Seq<Segment>, n: nat, w: nat, i: int, j: int)
    requires
        n > 0,
        forall|k: int| 0 <= k < segs.len() ==> weight(#[trigger] segs[k]) <= w,
        0 <= i < n,
        0 <= j < n,
    ensures
        spread(segs, n).loads[i] <= spread(segs, n).loads[j] + w,
    decreases segs.len(),
{
    if segs.len() > 0 {
        let init = segs.drop_last();
        assert forall|k: int| 0 <= k < init.len() implies weight(#[trigger] init[k]) <= w by {
            assert(init[k] == segs[k]);
        }
        law_loads_add_up(init, n);
        let before = spread(init, n);
        lemma_least(before.loads);
        let k = least(before.loads);
        assert(weight(segs[segs.len() - 1]) <= w);
        law_loads_balanced(init, n, w, i, j);
        assert(before.loads[k] <= before.loads[j]);
    }
}

proof fn lemma_idle_count(segs: Seq<Segment>, n: nat)
    requires
        n > 0,
    ensures
        idle(spread(segs, n).buckets) == (if segs.len() <= n {
            n - segs.len()
        } else {
            0
        }),
    decreases segs.len(),
{
    if segs.len() == 0 {
        lemma_idle_all(n);
    } else {
        let init = segs.drop_last();
        lemma_idle_count(init, n);
        law_loads_add_up(init, n);
        let before = spread(init, n);
        lemma_least(before.loads);
        let k = least(before.loads);
        lemma_idle_update(before.buckets, k, segs.last());
        lemma_idle_witness(before.buckets);
        assert(before.loads[k] == load_of(before.buckets[k]));
        lemma_load_positive(before.buckets[k]);
        if idle(before.buckets) > 0 {
            let w = choose|i: int|
                0 <= i < before.buckets.len() && (#[trigger] before.buckets[i]).len() == 0;
            lemma_load_positive(before.buckets[w]);
            assert(before.loads[w] == load_of(before.buckets[w]));
            assert(before.loads[k] <= before.loads[w]);
        }
    }
}

/// With at least as many segments as streams, no stream is left without one.
pub proof fn law_no_idle_stream(segs: Seq<Segment>, n: nat, i: int)
    requires
        n > 0,
        segs.len() >= n,
        0 <= i < n,
    ensures
        spread(segs, n).buckets[i].len() > 0,
{
    law_loads_add_up(segs, n);
    lemma_idle_count(segs, n);
    lemma_idle_witness(spread(segs, n).buckets);
}

proof fn lemma_streams_in_order(segs: Seq<Segment>, n: nat, i: int)
    requires
        n > 0,
        in_order(segs),
        0 <= i < n,
    ensures
        in_order(spread(segs, n).buckets[i]),
        segs.len() > 0 ==> forall|j: int|
            0 <= j < spread(segs, n).buckets[i].len() ==> (#[trigger] spread(
                segs,
                n,
            ).buckets[i][j]).leq(&segs.last()),
    decreases segs.len(),
{
    if segs.len() > 0 {
        let init = segs.drop_last();
        assert forall|a: int, b: int| #![trigger init[a], init[b]] 0 <= a <= b < init.len() implies init[a].leq(
            &init[b],
        ) by {
            assert(segs[a].leq(&segs[b]));
        }
        lemma_streams_in_order(init, n, i);
        law_loads_add_up(init, n);
        let before = spread(init, n);
        lemma_least(before.loads);
        let k = least(before.loads);
        let x = segs.last();
        let was = before.buckets[i];
        let now = spread(segs, n).buckets[i];
        if init.len() == 0 {
            assert(was.len() == 0);
        } else {
            assert(segs[segs.len() - 2].leq(&segs[segs.len() - 1]));
            assert(init.last() == segs[segs.len() - 2]);
        }
        assert forall|j: int| 0 <= j < now.len() implies (#[trigger] now[j]).leq(&x) by {
            if j < was.len() {
                assert(now[j] == was[j]);
                assert(was[j].leq(&init.last()));
            }
        }
        assert forall|a: int, b: int| #![trigger now[a], now[b]] 0 <= a <= b < now.len() implies now[a].leq(
            &now[b],
        ) by {
            if b < was.len() {
                assert(was[a].leq(&was[b]));
            }
        }
    }
}

/// Each stream sends its segments in the order in which they were dealt out:
/// the largest first, where they came so.
pub proof fn law_streams_in_order(segs: Seq<Segment>, n: nat, i: int)
    requires
        n > 0,
        in_order(segs),
        0 <= i < n,
    ensures
        in_order(spread(segs, n).buckets[i]),
{
    lemma_streams_in_order(segs, n, i);
}

proof fn lemma_loads_grow(segs: Seq<Segment>, n: nat, m: int, i: int)
    requires
        n > 0,
        0 <= m <= segs.len(),
        0 <= i < n,
    ensures
        spread(segs.take(m), n).loads[i] <= spread(segs, n).loads[i],
    decreases segs.len() - m,
{
    if m == segs.len() {
        assert(segs.take(m) =~= segs);
    } else {
        lemma_loads_grow(segs, n, m + 1, i);
        assert(segs.take(m + 1).drop_last() =~= segs.take(m));
        law_loads_add_up(segs.take(m), n);
        lemma_least(spread(segs.take(m), n).loads);
    }
}

/// The segments of a plan, before they are dealt out: the pieces of all files,
/// the largest first.
pub open spec fn planned(entries: Seq<SendEntry>, streams: Option<u32>) -> Seq<Segment> {
    stable_sorted(all_pieces(entries, stream_limit(streams)))
}

/// How many streams a plan uses: no more than there are segments, and at least
/// one.
pub open spec fn planned_streams(entries: Seq<SendEntry>, streams: Option<u32>) -> nat {
    let n = stream_limit(streams);
    let segs = planned(entries, streams).len();
    if segs == 0 {
        1
    } else if segs < n {
        segs
    } else {
        n
    }
}

/// The streams of a plan, with their segments and loads.
pub open spec fn planned_spread(entries: Seq<SendEntry>, streams: Option<u32>) -> Spread {
    spread(planned(entries, streams), planned_streams(entries, streams))
}

/// A plan sends every piece of every file, on one stream, once.
pub proof fn law_plan_sends_everything(entries: Seq<SendEntry>, streams: Option<u32>)
    ensures
        pooled(planned_spread(entries, streams).buckets) == all_pieces(
            entries,
            stream_limit(streams),
        ).to_multiset(),
{
    law_sort_permutes(all_pieces(entries, stream_limit(streams)));
    law_every_segment_once(planned(entries, streams), planned_streams(entries, streams));
}

proof fn lemma_piece_listed(entries: Seq<SendEntry>, streams: nat, k: int, i: int)
    requires
        0 <= k < entries.len(),
        0 <= i < pieces(entries[k], streams).len(),
    ensures
        all_pieces(entries, streams).contains(pieces(entries[k], streams)[i]),
    decreases entries.len(),
{
    let x = pieces(entries[k], streams)[i];
    let all = all_pieces(entries, streams);
    let before = all_pieces(entries.drop_last(), streams);
    if k == entries.len() - 1 {
        assert(all[before.len() + i] == x);
    } else {
        assert(entries.drop_last()[k] == entries[k]);
        lemma_piece_listed(entries.drop_last(), streams, k, i);
        let j = choose|j: int| 0 <= j < before.len() && before[j] == x;
        assert(all[j] == x);
    }
}

/// Whether a segment stands at place `j` of stream `i`.
pub open spec fn stands_at(buckets: Seq<Seq<Segment>>, i: int, j: int, s: Segment) -> bool {
    0 <= i < buckets.len() && 0 <= j < buckets[i].len() && buckets[i][j] == s
}

proof fn lemma_pooled_witness(buckets: Seq<Seq<Segment>>, s: Segment)
    requires
        pooled(buckets).count(s) > 0,
    ensures
        exists|i: int, j: int| #[trigger] stands_at(buckets, i, j, s),
    decreases buckets.len(),
{
    if buckets.len() > 0 {
        let init = buckets.drop_last();
        let k = buckets.len() - 1;
        if buckets.last().to_multiset().count(s) > 0 {
            vstd::seq_lib::to_multiset_contains(buckets.last(), s);
            let j = choose|j: int| 0 <= j < buckets[k].len() && buckets[k][j] == s;
            assert(stands_at(buckets, k, j, s));
        } else {
            lemma_pooled_witness(init, s);
            let (i, j) = choose|i: int, j: int| #[trigger] stands_at(init, i, j, s);
            assert(stands_at(buckets, i, j, s));
        }
    }
}

proof fn lemma_pooled_count(buckets: Seq<Seq<Segment>>, i: int, j: int, s: Segment)
    requires
        stands_at(buckets, i, j, s),
    ensures
        pooled(buckets).count(s) > 0,
    decreases buckets.len(),
{
    if i == buckets.len() - 1 {
        assert(buckets[i].contains(s));
        vstd::seq_lib::to_multiset_contains(buckets[i], s);
    } else {
        assert(stands_at(buckets.drop_last(), i, j, s));
        lemma_pooled_count(buckets.drop_last(), i, j, s);
    }
}

proof fn lemma_piece_origin(entries: Seq<SendEntry>, streams: nat, s: Segment)
    requires
        all_pieces(entries, streams).contains(s),
    ensures
        exists|k: int, i: int| #[trigger] is_piece(entries, streams, k, i, s),
    decreases entries.len(),
{
    let all = all_pieces(entries, streams);
    let m = choose|m: int| 0 <= m < all.len() && all[m] == s;
    if entries.len() > 0 {
        let init = entries.drop_last();
        let before = all_pieces(init, streams);
        if m < before.len() {
            assert(before[m] == s);
            lemma_piece_origin(init, streams, s);
            let (k, i) = choose|k: int, i: int| #[trigger] is_piece(init, streams, k, i, s);
            assert(is_piece(entries, streams, k, i, s));
        } else {
            assert(is_piece(entries, streams, entries.len() - 1, m - before.len(), s));
        }
    }
}

/// Whether a segment is piece `i` of file `k`.
pub open spec fn is_piece(
    entries: Seq<SendEntry>,
    streams: nat,
    k: int,
    i: int,
    s: Segment,
) -> bool {
    &&& 0 <= k < entries.len()
    &&& 0 <= i < pieces(entries[k], streams).len()
    &&& pieces(entries[k], streams)[i] == s
}

/// Each piece of each file stands somewhere in a plan.
pub proof fn law_every_piece_planned(
    entries: Seq<SendEntry>,
    streams: Option<u32>,
    k: int,
    m: int,
)
    requires
        0 <= k < entries.len(),
        0 <= m < pieces(entries[k], stream_limit(streams)).len(),
    ensures
        exists|i: int, j: int| #[trigger]
            stands_at(
                planned_spread(entries, streams).buckets,
                i,
                j,
                pieces(entries[k], stream_limit(streams))[m],
            ),
{
    let n = stream_limit(streams);
    let all = all_pieces(entries, n);
    let s = pieces(entries[k], n)[m];
    lemma_piece_listed(entries, n, k, m);
    vstd::seq_lib::to_multiset_contains(all, s);
    law_plan_sends_everything(entries, streams);
    lemma_pooled_witness(planned_spread(entries, streams).buckets, s);
}

/// Whatever stands in a plan is a piece of one of the files.
pub proof fn law_planned_is_piece(
    entries: Seq<SendEntry>,
    streams: Option<u32>,
    i: int,
    j: int,
    s: Segment,
)
    requires
        stands_at(planned_spread(entries, streams).buckets, i, j, s),
    ensures
        exists|k: int, m: int| #[trigger] is_piece(entries, stream_limit(streams), k, m, s),
{
    let n = stream_limit(streams);
    let all = all_pieces(entries, n);
    lemma_pooled_count(planned_spread(entries, streams).buckets, i, j, s);
    law_plan_sends_everything(entries, streams);
    vstd::seq_lib::to_multiset_contains(all, s);
    lemma_piece_origin(entries, n, s);
}

/// Whichever byte of whichever file it is, some stream of a plan sends it, from
/// its place in that file and under that file's path.
pub proof fn law_plan_covers_every_byte(
    entries: Seq<SendEntry>,
    streams: Option<u32>,
    k: int,
    b: int,
)
    requires
        0 <= k < entries.len(),
        0 <= b < entries[k].size,
    ensures
        exists|i: int, j: int, s: Segment| #[trigger]
            stands_at(planned_spread(entries, streams).buckets, i, j, s) && s.path == entries[k].path
                && s.rel == entries[k].rel && s.size == entries[k].size && covers(s, b),
{
    let n = stream_limit(streams);
    let e = entries[k];
    let buckets = planned_spread(entries, streams).buckets;
    law_each_byte_once(e, n, b);
    law_pieces_tile(e, n);
    let m = choose|m: int| 0 <= m < pieces(e, n).len() && covers(#[trigger] pieces(e, n)[m], b);
    let s = pieces(e, n)[m];
    law_every_piece_planned(entries, streams, k, m);
    let (p, q) = choose|p: int, q: int| #[trigger] stands_at(buckets, p, q, s);
    assert(stands_at(buckets, p, q, s));
}

/// A plan for at least one file leaves no stream without work.
pub proof fn law_plan_uses_every_stream(entries: Seq<SendEntry>, streams: Option<u32>, i: int)
    requires
        entries.len() > 0,
        0 <= i < planned_streams(entries, streams),
    ensures
        planned_spread(entries, streams).buckets[i].len() > 0,
{
    let n = stream_limit(streams);
    law_stable_sorted(all_pieces(entries, n));
    law_pieces_tile(entries.last(), n);
    law_no_idle_stream(planned(entries, streams), planned_streams(entries, streams), i);
}

/// Each stream of a plan sends its largest segments first.
pub proof fn law_plan_largest_first(entries: Seq<SendEntry>, streams: Option<u32>, i: int)
    requires
        0 <= i < planned_streams(entries, streams),
    ensures
        in_order(planned_spread(entries, streams).buckets[i]),
{
    law_stable_sorted(all_pieces(entries, stream_limit(streams)));
    law_streams_in_order(planned(entries, streams), planned_streams(entries, streams), i);
}

/// The segments of a plan are dealt out from the longest to the shortest; those of
/// one length in the order of the files and of their pieces.
pub proof fn law_planned_by_length(entries: Seq<SendEntry>, streams: Option<u32>, len: u64)
    ensures
        planned(entries, streams).len() == all_pieces(entries, stream_limit(streams)).len(),
        forall|i: int, j: int|
            #![trigger planned(entries, streams)[i], planned(entries, streams)[j]]
            0 <= i <= j < planned(entries, streams).len() ==> planned(entries, streams)[i].len
                >= planned(entries, streams)[j].len,
        planned(entries, streams).filter(|s: Segment| s.len == len) == all_pieces(
            entries,
            stream_limit(streams),
        ).filter(|s: Segment| s.len == len),
        forall|i: int, a: int, b: int|
            #![trigger planned_spread(entries, streams).buckets[i][a], planned_spread(
                entries,
                streams,
            ).buckets[i][b]]
            0 <= i < planned_streams(entries, streams) && 0 <= a <= b < planned_spread(
                entries,
                streams,
            ).buckets[i].len() ==> planned_spread(entries, streams).buckets[i][a].len
                >= planned_spread(entries, streams).buckets[i][b].len,
{
    let all = all_pieces(entries, stream_limit(streams));
    let p = planned(entries, streams);
    law_stable_sorted(all);
    let by = |s: Segment| s.len == len;
    if exists|i: int| 0 <= i < all.len() && (#[trigger] all[i]).len == len {
        let i = choose|i: int| 0 <= i < all.len() && (#[trigger] all[i]).len == len;
        let c = all[i];
        let same = |y: Segment| crate::sort::same_rank(c, y);
        assert(same =~= by);
        assert(crate::sort::rank_class(p, c) == crate::sort::rank_class(all, c));
    } else {
        law_sort_permutes(all);
        assert forall|x: Segment| #[trigger] p.contains(x) implies x.len != len by {
            vstd::seq_lib::to_multiset_contains(p, x);
            vstd::seq_lib::to_multiset_contains(all, x);
            let k = choose|k: int| 0 <= k < all.len() && all[k] == x;
            assert(all[k].len != len);
        }
        if p.filter(by).len() > 0 {
            p.lemma_filter_pred(by, 0);
            assert(p.filter(by).contains(p.filter(by)[0]));
            p.lemma_filter_contains_rev(by, p.filter(by)[0]);
        }
        if all.filter(by).len() > 0 {
            all.lemma_filter_pred(by, 0);
            assert(all.filter(by).contains(all.filter(by)[0]));
            all.lemma_filter_contains_rev(by, all.filter(by)[0]);
            let k = choose|k: int| 0 <= k < all.len() && all[k] == all.filter(by)[0];
            assert(all[k].len == len);
        }
        assert(p.filter(by) =~= all.filter(by));
    }
    let buckets = planned_spread(entries, streams).buckets;
    assert forall|i: int, a: int, b: int|
        #![trigger buckets[i][a], buckets[i][b]]
        0 <= i < planned_streams(entries, streams) && 0 <= a <= b < buckets[i].len()
            implies buckets[i][a].len >= buckets[i][b].len by {
        law_plan_largest_first(entries, streams, i);
        assert(buckets[i][a].leq(&buckets[i][b]));
    }
}

/// A request for one to eight streams gets as many, one for none gets one, one for
/// more gets eight, and one that names no number gets four. A plan uses as many as
/// that, but no more than it has segments, and one at least.
pub proof fn law_stream_numbers(entries: Seq<SendEntry>, streams: Option<u32>)
    ensures
        streams is None ==> stream_limit(streams) == 4,
        streams is Some && 1 <= streams->0 <= 8 ==> stream_limit(streams) == streams->0,
        streams == Some(0u32) ==> stream_limit(streams) == 1,
        streams is Some && streams->0 > 8 ==> stream_limit(streams) == 8,
        planned_spread(entries, streams).buckets.len() >= 1,
        planned_spread(entries, streams).buckets.len() <= stream_limit(streams),
        all_pieces(entries, stream_limit(streams)).len() >= stream_limit(streams) ==> planned_spread(
            entries,
            streams,
        ).buckets.len() == stream_limit(streams),
        1 <= all_pieces(entries, stream_limit(streams)).len() <= stream_limit(streams)
            ==> planned_spread(entries, streams).buckets.len() == all_pieces(
            entries,
            stream_limit(streams),
        ).len(),
{
    law_stable_sorted(all_pieces(entries, stream_limit(streams)));
    law_loads_add_up(planned(entries, streams), planned_streams(entries, streams));
}

/// The pieces of a list of files are those of its parts, one after the other, and
/// its size is what they add up to.
pub proof fn law_files_one_by_one(a: Seq<SendEntry>, e: SendEntry, streams: nat)
    ensures
        all_pieces(a.push(e), streams) == all_pieces(a, streams) + pieces(e, streams),
        total_size(a.push(e)) == total_size(a) + e.size,
        all_pieces(Seq::empty(), streams).len() == 0,
        total_size(Seq::empty()) == 0,
{
    assert(a.push(e).drop_last() =~= a);
}

/// The bytes of all streams together.
pub open spec fn streams_len(buckets: Seq<Seq<Segment>>) -> nat
    decreases buckets.len(),
{
    if buckets.len() == 0 {
        0
    } else {
        streams_len(buckets.drop_last()) + total_len(buckets.last())
    }
}

proof fn lemma_streams_len_update(buckets: Seq<Seq<Segment>>, k: int, s: Segment)
    requires
        0 <= k < buckets.len(),
    ensures
        streams_len(buckets.update(k, buckets[k].push(s))) == streams_len(buckets) + s.len,
    decreases buckets.len(),
{
    let u = buckets.update(k, buckets[k].push(s));
    if k == buckets.len() - 1 {
        assert(u.drop_last() =~= buckets.drop_last());
        assert(buckets[k].push(s).drop_last() =~= buckets[k]);
    } else {
        let init = buckets.drop_last();
        lemma_streams_len_update(init, k, s);
        assert(u.drop_last() =~= init.update(k, init[k].push(s)));
    }
}

proof fn lemma_streams_len_empty(n: nat)
    ensures
        streams_len(Seq::new(n, |i: int| Seq::<Segment>::empty())) == 0,
    decreases n,
{
    if n > 0 {
        lemma_streams_len_empty((n - 1) as nat);
        assert(Seq::new(n, |i: int| Seq::<Segment>::empty()).drop_last() =~= Seq::new(
            (n - 1) as nat,
            |i: int| Seq::<Segment>::empty(),
        ));
    }
}

proof fn lemma_spread_len(segs: Seq<Segment>, n: nat)
    requires
        n > 0,
    ensures
        streams_len(spread(segs, n).buckets) == total_len(segs),
    decreases segs.len(),
{
    if segs.len() == 0 {
        lemma_streams_len_empty(n);
    } else {
        let init = segs.drop_last();
        lemma_spread_len(init, n);
        law_loads_add_up(init, n);
        let before = spread(init, n);
        lemma_least(before.loads);
        lemma_streams_len_update(before.buckets, least(before.loads), segs.last());
    }
}

proof fn lemma_insert_len(segs: Seq<Segment>, x: Segment)
    ensures
        total_len(insert_ranked(segs, x)) == total_len(segs) + x.len,
    decreases segs.len(),
{
    if segs.len() == 0 || segs.last().leq(&x) {
        assert(segs.push(x).drop_last() =~= segs);
    } else {
        lemma_insert_len(segs.drop_last(), x);
        let q = insert_ranked(segs.drop_last(), x);
        assert(q.push(segs.last()).drop_last() =~= q);
    }
}

proof fn lemma_sorted_len(segs: Seq<Segment>)
    ensures
        total_len(stable_sorted(segs)) == total_len(segs),
    decreases segs.len(),
{
    if segs.len() > 0 {
        lemma_sorted_len(segs.drop_last());
        lemma_insert_len(stable_sorted(segs.drop_last()), segs.last());
    }
}

/// The streams of a plan send as many bytes as the files have.
pub proof fn law_plan_total(entries: Seq<SendEntry>, streams: Option<u32>)
    ensures
        streams_len(planned_spread(entries, streams).buckets) == total_size(entries),
{
    let n = stream_limit(streams);
    law_pieces_total(entries, n);
    lemma_sorted_len(all_pieces(entries, n));
    lemma_spread_len(planned(entries, streams), planned_streams(entries, streams));
}

/// The number of streams that a request stands for: the default where it
/// names none, and never less than one or more than [`MAX_STREAMS`].
pub fn stream_count(streams: Option<u32>) -> (r: usize)
    ensures
        r == stream_limit(streams),
        1 <= r <= MAX_STREAMS,
{
    let n: u32 = match streams {
        Some(k) => k,
        None => DEFAULT_STREAMS,
    };
    if n < 1 {
        1
    } else if n > MAX_STREAMS {
        MAX_STREAMS as usize
    } else {
        n as usize
    }
}

/// Adds the pieces of a file to the segments.
fn push_pieces(e: &SendEntry, streams: usize, out: &mut Vec<Segment>)
    requires
        streams >= 1,
    ensures
        final(out)@ == old(out)@ + pieces(*e, streams as nat),
{
    let ghost size = e.size as nat;
    let ghost start = out@;
    let count: u64 = if e.size < 2 * MIN_SEG {
        1
    } else if streams as u64 <= e.size / MIN_SEG {
        streams as u64
    } else {
        e.size / MIN_SEG
    };
    proof {
        lemma_piece_count(size, streams as nat);
        assert(count == piece_count(size, streams as nat));
        assert(start + pieces(*e, streams as nat).take(0) =~= start);
    }
    let part: u64 = e.size / count;
    let mut i: u64 = 0;
    while i < count
        invariant
            size == e.size as nat,
            count == piece_count(size, streams as nat),
            count >= 1,
            part == size as int / count as int,
            i <= count,
            out@ == start + pieces(*e, streams as nat).take(i as int),
        decreases count - i,
    {
        proof {
            lemma_piece_bounds(size as int, count as int, i as int);
        }
        let offset: u64 = i * part;
        let len: u64 = if i == count - 1 {
            e.size - offset
        } else {
            part
        };
        let seg = Segment { path: e.path.clone(), rel: e.rel.clone(), offset, len, size: e.size };
        proof {
            let ps = pieces(*e, streams as nat);
            assert(seg == ps[i as int]);
            assert(ps.take(i + 1) =~= ps.take(i as int).push(seg));
            assert(start + ps.take(i + 1) =~= (start + ps.take(i as int)).push(seg));
        }
        out.push(seg);
        i = i + 1;
    }
    proof {
        let ps = pieces(*e, streams as nat);
        assert(ps.take(ps.len() as int) =~= ps);
    }
}

/// Cuts the files into segments for the given number of streams.
pub fn cut_entries(entries: &Vec<SendEntry>, streams: usize) -> (r: Vec<Segment>)
    requires
        streams >= 1,
    ensures
        r@ == all_pieces(entries@, streams as nat),
{
    let mut out: Vec<Segment> = Vec::new();
    let mut i: usize = 0;
    while i < entries.len()
        invariant
            streams >= 1,
            i <= entries.len(),
            out@ == all_pieces(entries@.take(i as int), streams as nat),
        decreases entries.len() - i,
    {
        push_pieces(&entries[i], streams, &mut out);
        proof {
            assert(entries@.take(i + 1).drop_last() =~= entries@.take(i as int));
        }
        i = i + 1;
    }
    proof {
        assert(entries@.take(entries@.len() as int) =~= entries@);
    }
    out
}

proof fn lemma_total_grows(entries: Seq<SendEntry>, k: int)
    requires
        0 <= k <= entries.len(),
    ensures
        total_size(entries.take(k)) <= total_size(entries),
    decreases entries.len() - k,
{
    if k == entries.len() {
        assert(entries.take(k) =~= entries);
    } else {
        lemma_total_grows(entries, k + 1);
        assert(entries.take(k + 1).drop_last() =~= entries.take(k));
    }
}

/// The bytes of all files together, unless they are more than 64 bits count.
pub fn sum_sizes(entries: &Vec<SendEntry>) -> (r: Option<u64>)
    ensures
        match r {
            Some(n) => n == total_size(entries@),
            None => total_size(entries@) > u64::MAX,
        },
{
    let mut total: u64 = 0;
    let mut i: usize = 0;
    while i < entries.len()
        invariant
            i <= entries.len(),
            total == total_size(entries@.take(i as int)),
        decreases entries.len() - i,
    {
        proof {
            assert(entries@.take(i + 1).drop_last() =~= entries@.take(i as int));
            lemma_total_grows(entries@, i + 1);
        }
        match total.checked_add(entries[i].size) {
            Some(t) => {
                total = t;
            },
            None => {
                return None;
            },
        }
        i = i + 1;
    }
    proof {
        assert(entries@.take(entries@.len() as int) =~= entries@);
    }
    Some(total)
}

/// The segments behind a vector of streams.
pub open spec fn streams_of(v: Seq<Vec<Segment>>) -> Seq<Seq<Segment>> {
    v.map_values(|b: Vec<Segment>| b@)
}

/// Whether every load can be counted in 64 bits.
pub open spec fn loads_fit(loads: Seq<nat>) -> bool {
    forall|i: int| 0 <= i < loads.len() ==> #[trigger] loads[i] <= u64::MAX
}

/// Deals the segments out to `n` streams, each to the first of those that have
/// the least to send so far. There is no answer if some stream would have more
/// to send than 64 bits count.
pub fn distribute(segs: Vec<Segment>, n: usize) -> (r: Option<Vec<Vec<Segment>>>)
    requires
        n > 0,
    ensures
        match r {
            Some(b) => streams_of(b@) == spread(segs@, n as nat).buckets && loads_fit(
                spread(segs@, n as nat).loads,
            ),
            None => !loads_fit(spread(segs@, n as nat).loads),
        },
{
    let ghost all = segs@;
    let mut buckets: Vec<Vec<Segment>> = Vec::new();
    let mut loads: Vec<u64> = Vec::new();
    let mut i: usize = 0;
    while i < n
        invariant
            i <= n,
            buckets@.len() == i,
            loads@.len() == i,
            forall|j: int| 0 <= j < i ==> (#[trigger] buckets@[j])@ == Seq::<Segment>::empty(),
            forall|j: int| 0 <= j < i ==> #[trigger] loads@[j] == 0,
        decreases n - i,
    {
        buckets.push(Vec::new());
        loads.push(0);
        i = i + 1;
    }
    proof {
        let s0 = spread(all.take(0), n as nat);
        assert(streams_of(buckets@) =~= s0.buckets);
        assert(loads@.map_values(|x: u64| x as nat) =~= s0.loads);
    }
    for s in it: segs
        invariant
            n > 0,
            it.seq() == all,
            buckets@.len() == n,
            loads@.len() == n,
            streams_of(buckets@) == spread(all.take(it.index()), n as nat).buckets,
            loads@.map_values(|x: u64| x as nat) == spread(all.take(it.index()), n as nat).loads,
    {
        let ghost m = it.index();
        let ghost before = spread(all.take(m), n as nat);
        let mut k: usize = 0;
        let mut j: usize = 1;
        proof {
            assert(before.loads.take(1).len() == 1);
        }
        while j < n
            invariant
                loads@.len() == n,
                loads@.map_values(|x: u64| x as nat) == before.loads,
                before.loads.len() == n,
                1 <= j <= n,
                k < j,
                k == least(before.loads.take(j as int)),
            decreases n - j,
        {
            proof {
                let t = before.loads.take(j + 1);
                assert(t.drop_last() =~= before.loads.take(j as int));
                assert(before.loads[j as int] == loads@[j as int]);
                assert(before.loads[k as int] == loads@[k as int]);
            }
            if loads[j] < loads[k] {
                k = j;
            }
            j = j + 1;
        }
        proof {
            assert(before.loads.take(n as int) =~= before.loads);
            assert(all.take(m + 1).drop_last() =~= all.take(m));
            assert(all.take(m + 1).last() == s);
            assert(before.loads[k as int] == loads@[k as int]);
            lemma_loads_grow(all, n as nat, m + 1, k as int);
        }
        let w: u64 = if s.len == 0 {
            1
        } else {
            s.len
        };
        let ghost loads0 = loads@;
        let ghost buckets0 = buckets@;
        match loads[k].checked_add(w) {
            Some(l) => {
                loads.set(k, l);
            },
            None => {
                proof {
                    law_loads_add_up(all, n as nat);
                    assert(spread(all, n as nat).loads[k as int] > u64::MAX);
                }
                return None;
            },
        }
        buckets[k].push(s);
        proof {
            let after = spread(all.take(m + 1), n as nat);
            assert(streams_of(buckets@) =~= after.buckets);
            assert(loads@.map_values(|x: u64| x as nat) =~= after.loads);
        }
    }
    proof {
        assert(all.take(all.len() as int) =~= all);
        let end = spread(all, n as nat);
        assert forall|i: int| 0 <= i < end.loads.len() implies #[trigger] end.loads[i] <= u64::MAX by {
            assert(end.loads[i] == loads@[i]);
        }
    }
    Some(buckets)
}

proof fn lemma_load_bound(segs: Seq<Segment>, n: nat, i: int)
    requires
        n > 0,
        0 <= i < n,
    ensures
        spread(segs, n).loads[i] <= load_of(segs),
        load_of(segs) <= total_len(segs) + segs.len(),
    decreases segs.len(),
{
    if segs.len() > 0 {
        let init = segs.drop_last();
        lemma_load_bound(init, n, i);
        law_loads_add_up(init, n);
        lemma_least(spread(init, n).loads);
        let k = least(spread(init, n).loads);
        lemma_load_bound(init, n, k);
    }
}

/// There is a plan for every transfer whose bytes and segments together are no more
/// than 64 bits count, which is every one that a disk can hold.
pub proof fn law_plan_there_is(entries: Seq<SendEntry>, streams: Option<u32>)
    requires
        total_size(entries) + all_pieces(entries, stream_limit(streams)).len()
            <= 18446744073709551615,
    ensures
        loads_fit(planned_spread(entries, streams).loads),
{
    let n = planned_streams(entries, streams);
    let segs = planned(entries, streams);
    let all = all_pieces(entries, stream_limit(streams));
    law_pieces_total(entries, stream_limit(streams));
    lemma_sorted_len(all);
    law_stable_sorted(all);
    law_loads_add_up(segs, n);
    assert forall|i: int| 0 <= i < spread(segs, n).loads.len() implies #[trigger] spread(
        segs,
        n,
    ).loads[i] <= u64::MAX by {
        lemma_load_bound(segs, n, i);
    }
}

/// The streams of a plan are seen as they are, one for each.
pub proof fn law_streams_as_they_are(v: Seq<Vec<Segment>>, i: int)
    ensures
        streams_of(v).len() == v.len(),
        0 <= i < v.len() ==> streams_of(v)[i] == v[i]@,
{
}

/// What is sent over which stream, and how much it is in all.
pub struct Plan {
    pub total: u64,
    pub streams: Vec<Vec<Segment>>,
}

/// Plans a transfer: large files are cut, the segments are sorted by length,
/// and each goes to the stream with the least to send. There is no plan where
/// the sizes add up to more than 64 bits count.
pub fn plan_transfer(entries: &Vec<SendEntry>, streams: Option<u32>) -> (r: Option<Plan>)
    ensures
        match r {
            Some(p) => {
                &&& p.total == total_size(entries@)
                &&& streams_of(p.streams@) == planned_spread(entries@, streams).buckets
                &&& loads_fit(planned_spread(entries@, streams).loads)
            },
            None => total_size(entries@) > u64::MAX || !loads_fit(
                planned_spread(entries@, streams).loads,
            ),
        },
{
    let total = match sum_sizes(entries) {
        Some(t) => t,
        None => {
            return None;
        },
    };
    let limit = stream_count(streams);
    let segs = stable_sort(cut_entries(entries, limit));
    let n: usize = if segs.len() == 0 {
        1
    } else if segs.len() < limit {
        segs.len()
    } else {
        limit
    };
    match distribute(segs, n) {
        Some(b) => Some(Plan { total, streams: b }),
        None => None,
    }
}

} // verus!
