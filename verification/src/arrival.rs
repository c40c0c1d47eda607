//! What a transfer leaves on the receiver's disk.
//!
//! Both ends of a stream are run against each other here, step by step as
//! [`crate::send::step`] and [`crate::receive::step`] decide, with every read
//! cut as it may be. What comes of it is a sequence of disk operations.

use vstd::prelude::*;
use vstd::string::*;
use crate::path::stripped;
use crate::plan::{
    covers, is_piece, law_every_piece_planned, law_pieces_tile, law_plan_covers_every_byte,
    law_plan_total, law_planned_is_piece, pieces, planned_spread, stands_at, stream_limit,
    streams_len, total_len, total_size, Segment, SendEntry,
};
use crate::receive::{
    law_segment_stored_in_order, possible_reads, recv_next, sum, RecvAction, RecvEvent, RecvState,
};
use crate::send::{
    enter, law_segment_sent_in_full, lens, send_next, SendAction, SendEvent, SendState,
};
use crate::session::{completions, law_completed_once, Place, Progress};
use crate::wire::{
    accepted_len, decoded, header_members, law_header_read_back, segment_header, ACK, NACK,
};

verus! {

/// A file after some bytes are written at a place in it. It grows where it is
/// too short, and a gap is filled with zeros.
pub open spec fn put(c: Seq<u8>, at: int, bytes: Seq<u8>) -> Seq<u8> {
    if bytes.len() == 0 {
        c
    } else {
        Seq::new(
            if at + bytes.len() <= c.len() {
                c.len()
            } else {
                (at + bytes.len()) as nat
            },
            |k: int|
                if at <= k < at + bytes.len() {
                    bytes[k - at]
                } else if k < c.len() {
                    c[k]
                } else {
                    0u8
                },
        )
    }
}

/// A file of zeros.
pub open spec fn zeros(n: nat) -> Seq<u8> {
    Seq::new(n, |k: int| 0u8)
}

/// What happens to the receiver's disk, and to the count of what has come.
pub enum DiskOp {
    /// The file for a path that the sender names is looked up, and made with
    /// this size if it is not open.
    Open { rel: Seq<char>, size: u64 },
    /// Bytes are written into the file for a path.
    Store { rel: Seq<char>, off: u64, bytes: Seq<u8> },
    /// Bytes are counted.
    Count(u64),
}

/// The bytes that a stream sends while some reads bring them from its file,
/// which is read from `at` on.
pub open spec fn sent_bytes(
    file: Seq<u8>,
    at: int,
    s: SendState,
    reads: Seq<u64>,
    lens: Seq<u64>,
) -> Seq<u8>
    decreases reads.len(),
{
    if reads.len() == 0 {
        Seq::empty()
    } else {
        let init = reads.drop_last();
        let before = sent_bytes(file, at, s, init, lens);
        let state = crate::send::after_reads(s, init, lens);
        let asked = send_next(state, SendEvent::Leave { cancelled: false }, lens);
        let read = send_next(asked.state, SendEvent::Read(reads.last()), lens);
        match read.action {
            SendAction::SendChunk(n) => before + file.subrange(at + sum(init), at + sum(init) + n),
            _ => before,
        }
    }
}

/// What counting does.
pub open spec fn count_ops(got: Option<u64>) -> Seq<DiskOp> {
    match got {
        Some(n) => seq![DiskOp::Count(n)],
        None => Seq::empty(),
    }
}

/// What a connection does while some reads bring the bytes that the sender sent.
pub open spec fn store_ops(
    rel: Seq<char>,
    s: RecvState,
    bytes: Seq<u8>,
    reads: Seq<u64>,
) -> Seq<DiskOp>
    decreases reads.len(),
{
    if reads.len() == 0 {
        Seq::empty()
    } else {
        let init = reads.drop_last();
        let before = store_ops(rel, s, bytes, init);
        let read = recv_next(
            crate::receive::after_reads(s, init),
            RecvEvent::Read(reads.last()),
        );
        let stored = recv_next(read.state, RecvEvent::Stored);
        let store = match read.action {
            RecvAction::StoreChunk { off, n } => seq![
                DiskOp::Store {
                    rel,
                    off,
                    bytes: bytes.subrange(sum(init) as int, sum(init) as int + n),
                },
            ],
            _ => Seq::empty(),
        };
        before + store + count_ops(stored.got)
    }
}

/// One file after the bytes that some operations write.
pub open spec fn stored_bytes(c: Seq<u8>, ops: Seq<DiskOp>) -> Seq<u8>
    decreases ops.len(),
{
    if ops.len() == 0 {
        c
    } else {
        let before = stored_bytes(c, ops.drop_last());
        match ops.last() {
            DiskOp::Store { rel, off, bytes } => put(before, off as int, bytes),
            _ => before,
        }
    }
}

proof fn lemma_sent_bytes(file: Seq<u8>, offset: u64, i: usize, lens: Seq<u64>, reads: Seq<u64>)
    requires
        i < lens.len() <= usize::MAX,
        lens[i as int] > 0,
        possible_reads(lens[i as int], reads),
        offset + lens[i as int] <= file.len(),
    ensures
        sum(reads) <= lens[i as int],
        sent_bytes(
            file,
            offset as int,
            SendState::Body { i, remaining: lens[i as int] },
            reads,
            lens,
        ) == file.subrange(offset as int, offset + sum(reads)),
    decreases reads.len(),
{
    law_segment_sent_in_full(i, lens, reads);
    if reads.len() == 0 {
        assert(file.subrange(offset as int, offset as int) =~= Seq::<u8>::empty());
    } else {
        let init = reads.drop_last();
        lemma_sent_bytes(file, offset, i, lens, init);
        let at = offset + sum(init);
        assert(file.subrange(offset as int, at) + file.subrange(at, at + reads.last())
            =~= file.subrange(offset as int, at + reads.last()));
    }
}

/// The operations of a segment's reads, one store and one count for each.
proof fn lemma_store_step(
    rel: Seq<char>,
    offset: u64,
    len: u64,
    bytes: Seq<u8>,
    reads: Seq<u64>,
)
    requires
        len > 0,
        offset + len <= u64::MAX,
        possible_reads(len, reads),
        bytes.len() == len,
        reads.len() > 0,
    ensures
        sum(reads) <= len,
        sum(reads) == sum(reads.drop_last()) + reads.last(),
        reads.last() > 0,
        store_ops(rel, RecvState::Chunk { off: offset, remaining: len }, bytes, reads) == store_ops(
            rel,
            RecvState::Chunk { off: offset, remaining: len },
            bytes,
            reads.drop_last(),
        ).push(
            DiskOp::Store {
                rel,
                off: (offset + sum(reads.drop_last())) as u64,
                bytes: bytes.subrange(sum(reads.drop_last()) as int, sum(reads) as int),
            },
        ).push(DiskOp::Count(reads.last())),
{
    law_segment_stored_in_order(offset, len, reads);
    let s = RecvState::Chunk { off: offset, remaining: len };
    let init = reads.drop_last();
    let store = DiskOp::Store {
        rel,
        off: (offset + sum(init)) as u64,
        bytes: bytes.subrange(sum(init) as int, sum(reads) as int),
    };
    let before = store_ops(rel, s, bytes, init);
    assert(before + seq![store] + seq![DiskOp::Count(reads.last())] =~= before.push(store).push(
        DiskOp::Count(reads.last()),
    ));
}

proof fn lemma_stored_bytes(
    c: Seq<u8>,
    rel: Seq<char>,
    offset: u64,
    len: u64,
    bytes: Seq<u8>,
    reads: Seq<u64>,
)
    requires
        len > 0,
        offset + len <= u64::MAX,
        possible_reads(len, reads),
        bytes.len() == len,
    ensures
        sum(reads) <= len,
        stored_bytes(
            c,
            store_ops(rel, RecvState::Chunk { off: offset, remaining: len }, bytes, reads),
        ) == put(c, offset as int, bytes.take(sum(reads) as int)),
    decreases reads.len(),
{
    if reads.len() > 0 {
        let s = RecvState::Chunk { off: offset, remaining: len };
        let init = reads.drop_last();
        lemma_store_step(rel, offset, len, bytes, reads);
        lemma_stored_bytes(c, rel, offset, len, bytes, init);
        let before = store_ops(rel, s, bytes, init);
        let ops = store_ops(rel, s, bytes, reads);
        let off = (offset + sum(init)) as u64;
        let chunk = bytes.subrange(sum(init) as int, sum(reads) as int);
        let store = DiskOp::Store { rel, off, bytes: chunk };
        assert(ops.drop_last() =~= before.push(store));
        assert(before.push(store).drop_last() =~= before);
        assert(stored_bytes(c, before.push(store)) == put(
            stored_bytes(c, before),
            off as int,
            chunk,
        ));
        let head = bytes.take(sum(init) as int);
        assert(put(put(c, offset as int, head), off as int, chunk) =~= put(
            c,
            offset as int,
            bytes.take(sum(reads) as int),
        ));
    }
}

/// What is sent of a segment is what is stored of it, byte for byte and at the
/// same place: however the bytes are cut on the way, the receiver's file has the
/// segment's range of the sender's file where that has it.
pub proof fn law_segment_arrives(
    file: Seq<u8>,
    c: Seq<u8>,
    rel: Seq<char>,
    i: usize,
    lens: Seq<u64>,
    offset: u64,
    sent: Seq<u64>,
    got: Seq<u64>,
)
    requires
        i < lens.len() <= usize::MAX,
        lens[i as int] > 0,
        offset + lens[i as int] <= file.len(),
        offset + lens[i as int] <= u64::MAX,
        possible_reads(lens[i as int], sent),
        sum(sent) == lens[i as int],
        possible_reads(lens[i as int], got),
        sum(got) == lens[i as int],
    ensures
        stored_bytes(
            c,
            store_ops(
                rel,
                RecvState::Chunk { off: offset, remaining: lens[i as int] },
                sent_bytes(
                    file,
                    offset as int,
                    SendState::Body { i, remaining: lens[i as int] },
                    sent,
                    lens,
                ),
                got,
            ),
        ) == put(c, offset as int, file.subrange(offset as int, offset + lens[i as int])),
{
    lemma_sent_bytes(file, offset, i, lens, sent);
    let bytes = file.subrange(offset as int, offset + lens[i as int]);
    lemma_stored_bytes(c, rel, offset, lens[i as int], bytes, got);
    assert(bytes.take(sum(got) as int) =~= bytes);
}

/// How one segment comes through: the token that it is announced with, the four
/// bytes before its header, and how many bytes each read brings at either end.
pub struct Cut {
    pub token: Seq<char>,
    pub length: [u8; 4],
    pub sent: Seq<u64>,
    pub got: Seq<u64>,
}

/// Whether a segment of `len` bytes can come through so, in full.
pub open spec fn fits(cut: Cut, len: u64) -> bool {
    &&& accepted_len(cut.length@) is Some
    &&& possible_reads(len, cut.sent)
    &&& sum(cut.sent) == len
    &&& possible_reads(len, cut.got)
    &&& sum(cut.got) == len
}

/// Where the two ends of a stream stand, and what they did to the receiver's
/// disk.
pub struct Exchange {
    pub sender: SendState,
    pub receiver: RecvState,
    pub ops: Seq<DiskOp>,
}

/// After one more segment: the sender announces it with a header, the receiver
/// opens the file that it reads there and answers, and the segment's bytes go from the sender's file to the receiver's.
/// `source` is the sender's disk. The token is known, and nothing fails.
pub open spec fn exchange(
    x: Exchange,
    segs: Seq<Segment>,
    source: Map<Seq<char>, Seq<u8>>,
    cut: Cut,
) -> Exchange {
    let ls = lens(segs);
    let left = send_next(x.sender, SendEvent::Leave { cancelled: false }, ls);
    match left.action {
        SendAction::SendHeader(i) => {
            let seg = segs[i as int];
            match decoded(header_members(segment_header(cut.token, seg))) {
                Some(h) => {
                    let announced = send_next(left.state, SendEvent::Announced, ls);
                    let length = recv_next(x.receiver, RecvEvent::Length(cut.length));
                    let named = recv_next(
                        length.state,
                        RecvEvent::Header { offset: h.offset, len: h.len, known: true },
                    );
                    let open = if named.action is OpenFile {
                        seq![DiskOp::Open { rel: h.rel, size: h.size }]
                    } else {
                        Seq::empty()
                    };
                    let taken = recv_next(named.state, RecvEvent::Opened);
                    let begun = recv_next(taken.state, RecvEvent::Answered);
                    let answered = send_next(
                        announced.state,
                        SendEvent::Answered(
                            if taken.action is Accept {
                                ACK
                            } else {
                                NACK
                            },
                        ),
                        ls,
                    );
                    if answered.action is OpenFile {
                        let body = send_next(answered.state, SendEvent::Opened, ls).state;
                        let bytes = sent_bytes(
                            source[seg.path@],
                            seg.offset as int,
                            body,
                            cut.sent,
                            ls,
                        );
                        Exchange {
                            sender: crate::send::after_reads(body, cut.sent, ls),
                            receiver: crate::receive::after_reads(begun.state, cut.got),
                            ops: x.ops + (open + count_ops(begun.got) + store_ops(
                                h.rel,
                                begun.state,
                                bytes,
                                cut.got,
                            )),
                        }
                    } else {
                        Exchange {
                            sender: answered.state,
                            receiver: begun.state,
                            ops: x.ops + (open + count_ops(begun.got)),
                        }
                    }
                },
                None => x,
            }
        },
        _ => x,
    }
}

/// After the first segments of a stream.
pub open spec fn stream(
    segs: Seq<Segment>,
    source: Map<Seq<char>, Seq<u8>>,
    cuts: Seq<Cut>,
) -> Exchange
    decreases cuts.len(),
{
    if cuts.len() == 0 {
        Exchange {
            sender: enter(0, segs.len() as int, None).state,
            receiver: RecvState::Length,
            ops: Seq::empty(),
        }
    } else {
        exchange(stream(segs, source, cuts.drop_last()), segs, source, cuts.last())
    }
}

/// What the sender's disk has to hold for a segment: its file, at least up to the
/// segment's end, and the segment within the size that was told.
pub open spec fn in_source(seg: Segment, source: Map<Seq<char>, Seq<u8>>) -> bool {
    &&& source.contains_key(seg.path@)
    &&& seg.offset + seg.len <= source[seg.path@].len()
    &&& seg.offset + seg.len <= seg.size
}

/// What one segment does to the receiver's disk.
spec fn segment_ops(seg: Segment, source: Map<Seq<char>, Seq<u8>>, cut: Cut) -> Seq<DiskOp> {
    let rel = stripped(seg.rel@);
    seq![DiskOp::Open { rel, size: seg.size }] + (if seg.len == 0 {
        seq![DiskOp::Count(0)]
    } else {
        store_ops(
            rel,
            RecvState::Chunk { off: seg.offset, remaining: seg.len },
            source[seg.path@].subrange(seg.offset as int, seg.offset + seg.len),
            cut.got,
        )
    })
}

proof fn lemma_exchange(
    x: Exchange,
    i: usize,
    segs: Seq<Segment>,
    source: Map<Seq<char>, Seq<u8>>,
    cut: Cut,
)
    requires
        i < segs.len() <= usize::MAX,
        x.sender == (SendState::Segment { i }),
        x.receiver == RecvState::Length,
        fits(cut, segs[i as int].len),
        in_source(segs[i as int], source),
    ensures
        exchange(x, segs, source, cut).sender == enter(i + 1, segs.len() as int, None).state,
        exchange(x, segs, source, cut).receiver == RecvState::Length,
        exchange(x, segs, source, cut).ops == x.ops + segment_ops(segs[i as int], source, cut),
{
    let ls = lens(segs);
    let seg = segs[i as int];
    law_header_read_back(segment_header(cut.token, seg));
    assert(ls[i as int] == seg.len);
    let rel = stripped(seg.rel@);
    let open = seq![DiskOp::Open { rel, size: seg.size }];
    if seg.len == 0 {
        assert(exchange(x, segs, source, cut).ops =~= x.ops + segment_ops(seg, source, cut));
    } else {
        let file = source[seg.path@];
        law_segment_sent_in_full(i, ls, cut.sent);
        law_segment_stored_in_order(seg.offset, seg.len, cut.got);
        lemma_sent_bytes(file, seg.offset, i, ls, cut.sent);
        assert(open + Seq::<DiskOp>::empty() =~= open);
        assert(exchange(x, segs, source, cut).ops =~= x.ops + segment_ops(seg, source, cut));
    }
}

/// The receiver's files while a session is open: the paths that a file is open
/// for, and what is on the disk below the download directory.
pub struct Received {
    pub open: Set<Seq<char>>,
    pub disk: Map<Seq<Seq<char>>, Seq<u8>>,
}

/// After an operation. A file that is not open is made as
/// [`crate::session::Session::file_for`] says; a path that is refused does
/// nothing.
pub open spec fn after_op(place: Place, w: Received, op: DiskOp) -> Received {
    match op {
        DiskOp::Open { rel, size } => match place.target(rel) {
            Ok(p) => if w.open.contains(rel) {
                w
            } else {
                Received { open: w.open.insert(rel), disk: w.disk.insert(p, zeros(size as nat)) }
            },
            Err(_) => w,
        },
        DiskOp::Store { rel, off, bytes } => match place.target(rel) {
            Ok(p) => Received { open: w.open, disk: w.disk.insert(p, put(w.disk[p], off as int, bytes)) },
            Err(_) => w,
        },
        DiskOp::Count(_) => w,
    }
}

/// After several operations.
pub open spec fn after_ops(place: Place, w: Received, ops: Seq<DiskOp>) -> Received
    decreases ops.len(),
{
    if ops.len() == 0 {
        w
    } else {
        after_op(place, after_ops(place, w, ops.drop_last()), ops.last())
    }
}

/// The counts among some operations.
pub open spec fn counts(ops: Seq<DiskOp>) -> Seq<u64>
    decreases ops.len(),
{
    if ops.len() == 0 {
        Seq::empty()
    } else {
        match ops.last() {
            DiskOp::Count(n) => counts(ops.drop_last()).push(n),
            _ => counts(ops.drop_last()),
        }
    }
}

/// What is true of the files that are sent: their paths, how long each is, and
/// which bytes it has.
struct Truth {
    rels: Set<Seq<char>>,
    sizes: spec_fn(Seq<char>) -> u64,
    bytes: spec_fn(Seq<char>, int) -> u8,
}

/// Whether an operation opens a file with the right size, or stores bytes that
/// the file has at that place.
spec fn faithful(t: Truth, op: DiskOp) -> bool {
    match op {
        DiskOp::Open { rel, size } => t.rels.contains(rel) && size == (t.sizes)(rel),
        DiskOp::Store { rel, off, bytes } => {
            &&& t.rels.contains(rel)
            &&& bytes.len() > 0
            &&& off + bytes.len() <= (t.sizes)(rel)
            &&& forall|x: int| 0 <= x < bytes.len() ==> #[trigger] bytes[x] == (t.bytes)(rel, off + x)
        },
        DiskOp::Count(_) => true,
    }
}

spec fn all_faithful(t: Truth, ops: Seq<DiskOp>) -> bool {
    forall|m: int| 0 <= m < ops.len() ==> faithful(t, #[trigger] ops[m])
}

/// Whether an operation opens the file for a path.
spec fn opens(op: DiskOp, rel: Seq<char>) -> bool {
    op matches DiskOp::Open { rel: r, .. } && r == rel
}

/// Whether an operation stores the byte at a place of the file for a path.
spec fn stores(op: DiskOp, rel: Seq<char>, b: int) -> bool {
    op matches DiskOp::Store { rel: r, off, bytes } && r == rel && off <= b < off + bytes.len()
}

spec fn some_opens(ops: Seq<DiskOp>, rel: Seq<char>) -> bool {
    exists|m: int| 0 <= m < ops.len() && opens(#[trigger] ops[m], rel)
}

spec fn some_stores(ops: Seq<DiskOp>, rel: Seq<char>, b: int) -> bool {
    exists|m: int| 0 <= m < ops.len() && stores(#[trigger] ops[m], rel, b)
}

/// Whether a file is opened before anything is stored in it.
spec fn opened_first(ops: Seq<DiskOp>) -> bool {
    forall|m: int|
        0 <= m < ops.len() ==> ((#[trigger] ops[m]) matches DiskOp::Store { rel, .. } ==> some_opens(
            ops.take(m),
            rel,
        ))
}

proof fn lemma_some_opens_push(ops: Seq<DiskOp>, op: DiskOp, rel: Seq<char>)
    ensures
        some_opens(ops.push(op), rel) == (some_opens(ops, rel) || opens(op, rel)),
{
    let all = ops.push(op);
    if some_opens(ops, rel) {
        let m = choose|m: int| 0 <= m < ops.len() && opens(#[trigger] ops[m], rel);
        assert(all[m] == ops[m]);
    }
    if opens(op, rel) {
        assert(all[ops.len() as int] == op);
    }
    if some_opens(all, rel) && !opens(op, rel) {
        let m = choose|m: int| 0 <= m < all.len() && opens(#[trigger] all[m], rel);
        assert(ops[m] == all[m]);
    }
}

proof fn lemma_some_stores_push(ops: Seq<DiskOp>, op: DiskOp, rel: Seq<char>, b: int)
    ensures
        some_stores(ops.push(op), rel, b) == (some_stores(ops, rel, b) || stores(op, rel, b)),
{
    let all = ops.push(op);
    if some_stores(ops, rel, b) {
        let m = choose|m: int| 0 <= m < ops.len() && stores(#[trigger] ops[m], rel, b);
        assert(all[m] == ops[m]);
    }
    if stores(op, rel, b) {
        assert(all[ops.len() as int] == op);
    }
    if some_stores(all, rel, b) && !stores(op, rel, b) {
        let m = choose|m: int| 0 <= m < all.len() && stores(#[trigger] all[m], rel, b);
        assert(ops[m] == all[m]);
    }
}

proof fn lemma_opened_first_prefix(ops: Seq<DiskOp>)
    requires
        ops.len() > 0,
        opened_first(ops),
    ensures
        opened_first(ops.drop_last()),
        ops.last() matches DiskOp::Store { rel, .. } ==> some_opens(ops.drop_last(), rel),
{
    let init = ops.drop_last();
    assert forall|m: int| 0 <= m < init.len() implies ((#[trigger] init[m]) matches DiskOp::Store {
        rel,
        ..
    } ==> some_opens(init.take(m), rel)) by {
        assert(init[m] == ops[m]);
        assert(init.take(m) =~= ops.take(m));
    }
    assert(ops[ops.len() - 1] == ops.last());
    assert(ops.take(ops.len() - 1) =~= init);
}

proof fn lemma_opened_first_push(ops: Seq<DiskOp>, op: DiskOp)
    requires
        opened_first(ops),
        op matches DiskOp::Store { rel, .. } ==> some_opens(ops, rel),
    ensures
        opened_first(ops.push(op)),
{
    let all = ops.push(op);
    assert forall|m: int| 0 <= m < all.len() implies ((#[trigger] all[m]) matches DiskOp::Store {
        rel,
        ..
    } ==> some_opens(all.take(m), rel)) by {
        if m < ops.len() {
            assert(all[m] == ops[m]);
            assert(all.take(m) =~= ops.take(m));
        } else {
            assert(all.take(m) =~= ops);
        }
    }
}

/// Whether the paths lead to files, each to one of its own.
spec fn apart(place: Place, rels: Set<Seq<char>>) -> bool {
    &&& forall|r: Seq<char>| #[trigger] rels.contains(r) ==> place.target(r) is Ok
    &&& forall|r: Seq<char>, q: Seq<char>|
        #[trigger] rels.contains(r) && #[trigger] rels.contains(q) && r != q ==> place.target(r)
            != place.target(q)
}

/// Where every operation is faithful, a file that was opened has its length, and
/// each byte that was stored in it is the right one.
proof fn lemma_effect(
    place: Place,
    disk: Map<Seq<Seq<char>>, Seq<u8>>,
    ops: Seq<DiskOp>,
    t: Truth,
    rel: Seq<char>,
    b: int,
)
    requires
        apart(place, t.rels),
        all_faithful(t, ops),
        opened_first(ops),
        t.rels.contains(rel),
    ensures
        ({
            let w = after_ops(place, Received { open: Set::empty(), disk }, ops);
            let p = place.target(rel)->Ok_0;
            &&& w.open.contains(rel) == some_opens(ops, rel)
            &&& w.open.contains(rel) ==> w.disk.contains_key(p) && w.disk[p].len() == (t.sizes)(rel)
            &&& some_stores(ops, rel, b) ==> w.open.contains(rel) && 0 <= b < (t.sizes)(rel)
                && w.disk[p][b] == (t.bytes)(rel, b)
        }),
    decreases ops.len(),
{
    if ops.len() > 0 {
        let init = ops.drop_last();
        let op = ops.last();
        assert(init.push(op) =~= ops);
        assert forall|m: int| 0 <= m < init.len() implies faithful(t, #[trigger] init[m]) by {
            assert(init[m] == ops[m]);
        }
        assert(faithful(t, ops[ops.len() - 1]));
        lemma_opened_first_prefix(ops);
        lemma_effect(place, disk, init, t, rel, b);
        lemma_some_opens_push(init, op, rel);
        lemma_some_stores_push(init, op, rel, b);
        let w = after_ops(place, Received { open: Set::empty(), disk }, init);
        let p = place.target(rel)->Ok_0;
        match op {
            DiskOp::Open { rel: r, size } => {
                assert(t.rels.contains(r));
                if r != rel {
                    assert(place.target(r)->Ok_0 != p);
                }
            },
            DiskOp::Store { rel: r, off, bytes } => {
                assert(t.rels.contains(r));
                if r != rel {
                    assert(place.target(r)->Ok_0 != p);
                } else {
                    let c = w.disk[p];
                    assert(put(c, off as int, bytes).len() == c.len());
                    if stores(op, rel, b) {
                        assert(bytes[b - off] == (t.bytes)(rel, off + (b - off)));
                    }
                }
            },
            DiskOp::Count(_) => {},
        }
    }
}

/// What no path of a transfer leads to stays as it is.
proof fn lemma_elsewhere(
    place: Place,
    w: Received,
    ops: Seq<DiskOp>,
    t: Truth,
    p: Seq<Seq<char>>,
)
    requires
        all_faithful(t, ops),
        forall|r: Seq<char>| #[trigger]
            t.rels.contains(r) ==> place.target(r) != Ok::<Seq<Seq<char>>, Seq<char>>(p),
    ensures
        after_ops(place, w, ops).disk.contains_key(p) == w.disk.contains_key(p),
        after_ops(place, w, ops).disk[p] == w.disk[p],
    decreases ops.len(),
{
    if ops.len() > 0 {
        let init = ops.drop_last();
        assert forall|m: int| 0 <= m < init.len() implies faithful(t, #[trigger] init[m]) by {
            assert(init[m] == ops[m]);
        }
        assert(faithful(t, ops[ops.len() - 1]));
        lemma_elsewhere(place, w, init, t, p);
    }
}

proof fn lemma_counts_push(ops: Seq<DiskOp>, op: DiskOp)
    ensures
        sum(counts(ops.push(op))) == sum(counts(ops)) + (match op {
            DiskOp::Count(n) => n as nat,
            _ => 0,
        }),
        counts(ops.push(op)).len() == counts(ops).len() + (if op is Count {
            1nat
        } else {
            0
        }),
{
    assert(ops.push(op).drop_last() =~= ops);
    if let DiskOp::Count(n) = op {
        assert(counts(ops).push(n).drop_last() =~= counts(ops));
    }
}

proof fn lemma_counts_concat(a: Seq<DiskOp>, b: Seq<DiskOp>)
    ensures
        sum(counts(a + b)) == sum(counts(a)) + sum(counts(b)),
        counts(a + b).len() == counts(a).len() + counts(b).len(),
    decreases b.len(),
{
    if b.len() == 0 {
        assert(a + b =~= a);
    } else {
        let init = b.drop_last();
        lemma_counts_concat(a, init);
        assert(a + b =~= (a + init).push(b.last()));
        assert(b =~= init.push(b.last()));
        lemma_counts_push(a + init, b.last());
        lemma_counts_push(init, b.last());
    }
}

/// Whether a segment has what is true of its file.
spec fn tells_truth(seg: Segment, source: Map<Seq<char>, Seq<u8>>, t: Truth) -> bool {
    &&& in_source(seg, source)
    &&& t.rels.contains(stripped(seg.rel@))
    &&& (t.sizes)(stripped(seg.rel@)) == seg.size
    &&& forall|b: int|
        covers(seg, b) ==> #[trigger] source[seg.path@][b] == (t.bytes)(stripped(seg.rel@), b)
}

/// What the operations of a segment's first reads come to, behind the opening of
/// its file.
proof fn lemma_store_ops(seg: Segment, source: Map<Seq<char>, Seq<u8>>, reads: Seq<u64>, t: Truth)
    requires
        seg.len > 0,
        possible_reads(seg.len, reads),
        tells_truth(seg, source, t),
    ensures
        ({
            let rel = stripped(seg.rel@);
            let bytes = source[seg.path@].subrange(seg.offset as int, seg.offset + seg.len);
            let s = RecvState::Chunk { off: seg.offset, remaining: seg.len };
            let ops = seq![DiskOp::Open { rel, size: seg.size }] + store_ops(rel, s, bytes, reads);
            &&& sum(reads) <= seg.len
            &&& all_faithful(t, ops)
            &&& opened_first(ops)
            &&& some_opens(ops, rel)
            &&& forall|b: int|
                seg.offset <= b < seg.offset + sum(reads) ==> #[trigger] some_stores(ops, rel, b)
            &&& sum(counts(ops)) == sum(reads)
            &&& counts(ops).len() == reads.len()
        }),
    decreases reads.len(),
{
    let rel = stripped(seg.rel@);
    let file = source[seg.path@];
    let bytes = file.subrange(seg.offset as int, seg.offset + seg.len);
    let s = RecvState::Chunk { off: seg.offset, remaining: seg.len };
    let open = DiskOp::Open { rel, size: seg.size };
    let ops = seq![open] + store_ops(rel, s, bytes, reads);
    if reads.len() == 0 {
        assert(ops =~= Seq::<DiskOp>::empty().push(open));
        lemma_opened_first_push(Seq::empty(), open);
        lemma_some_opens_push(Seq::empty(), open, rel);
        lemma_counts_push(Seq::empty(), open);
    } else {
        let init = reads.drop_last();
        let before = seq![open] + store_ops(rel, s, bytes, init);
        lemma_store_ops(seg, source, init, t);
        lemma_store_step(rel, seg.offset, seg.len, bytes, reads);
        let off = (seg.offset + sum(init)) as u64;
        let chunk = bytes.subrange(sum(init) as int, sum(reads) as int);
        let store = DiskOp::Store { rel, off, bytes: chunk };
        let count = DiskOp::Count(reads.last());
        assert(ops =~= before.push(store).push(count));
        assert(faithful(t, store)) by {
            assert forall|x: int| 0 <= x < chunk.len() implies #[trigger] chunk[x] == (t.bytes)(
                rel,
                off + x,
            ) by {
                assert(covers(seg, off + x));
                assert(chunk[x] == file[off + x]);
            }
        }
        assert forall|m: int| 0 <= m < ops.len() implies faithful(t, #[trigger] ops[m]) by {
            if m < before.len() {
                assert(ops[m] == before[m]);
            }
        }
        lemma_opened_first_push(before, store);
        lemma_opened_first_push(before.push(store), count);
        lemma_some_opens_push(before, store, rel);
        lemma_some_opens_push(before.push(store), count, rel);
        assert forall|b: int| seg.offset <= b < seg.offset + sum(reads) implies #[trigger] some_stores(
            ops,
            rel,
            b,
        ) by {
            lemma_some_stores_push(before, store, rel, b);
            lemma_some_stores_push(before.push(store), count, rel, b);
            if b < off {
                assert(some_stores(before, rel, b));
            } else {
                assert(stores(store, rel, b));
            }
        }
        lemma_counts_push(before, store);
        lemma_counts_push(before.push(store), count);
    }
}

proof fn lemma_segment_ops(seg: Segment, source: Map<Seq<char>, Seq<u8>>, cut: Cut, t: Truth)
    requires
        fits(cut, seg.len),
        tells_truth(seg, source, t),
    ensures
        ({
            let ops = segment_ops(seg, source, cut);
            &&& all_faithful(t, ops)
            &&& opened_first(ops)
            &&& some_opens(ops, stripped(seg.rel@))
            &&& forall|b: int| covers(seg, b) ==> #[trigger] some_stores(ops, stripped(seg.rel@), b)
            &&& sum(counts(ops)) == seg.len
            &&& counts(ops).len() > 0
        }),
{
    let rel = stripped(seg.rel@);
    let ops = segment_ops(seg, source, cut);
    if seg.len == 0 {
        let open = DiskOp::Open { rel, size: seg.size };
        let count = DiskOp::Count(0);
        let first = Seq::<DiskOp>::empty().push(open);
        assert(ops =~= first.push(count));
        lemma_opened_first_push(Seq::empty(), open);
        lemma_opened_first_push(first, count);
        lemma_some_opens_push(Seq::empty(), open, rel);
        lemma_some_opens_push(first, count, rel);
        lemma_counts_push(Seq::empty(), open);
        lemma_counts_push(first, count);
    } else {
        lemma_store_ops(seg, source, cut.got, t);
        if cut.got.len() == 0 {
            assert(sum(cut.got) == 0);
        }
    }
}

proof fn lemma_ops_concat(a: Seq<DiskOp>, b: Seq<DiskOp>, t: Truth)
    requires
        all_faithful(t, a),
        all_faithful(t, b),
        opened_first(a),
        opened_first(b),
    ensures
        all_faithful(t, a + b),
        opened_first(a + b),
        forall|rel: Seq<char>|
            some_opens(a, rel) || some_opens(b, rel) ==> #[trigger] some_opens(a + b, rel),
        forall|rel: Seq<char>, x: int|
            some_stores(a, rel, x) || some_stores(b, rel, x) ==> #[trigger] some_stores(a + b, rel, x),
{
    let all = a + b;
    assert forall|m: int| 0 <= m < all.len() implies faithful(t, #[trigger] all[m]) by {
        if m < a.len() {
            assert(all[m] == a[m]);
        } else {
            assert(all[m] == b[m - a.len()]);
        }
    }
    assert forall|m: int| 0 <= m < all.len() implies ((#[trigger] all[m]) matches DiskOp::Store {
        rel,
        ..
    } ==> some_opens(all.take(m), rel)) by {
        if let DiskOp::Store { rel, .. } = all[m] {
            if m < a.len() {
                assert(a[m] == all[m]);
                assert(all.take(m) =~= a.take(m));
            } else {
                let j = m - a.len();
                assert(b[j] == all[m]);
                let k = choose|k: int| 0 <= k < b.take(j).len() && opens(#[trigger] b.take(j)[k], rel);
                assert(all.take(m)[a.len() + k] == b.take(j)[k]);
            }
        }
    }
    assert forall|rel: Seq<char>|
        some_opens(a, rel) || some_opens(b, rel) implies #[trigger] some_opens(all, rel) by {
        if some_opens(a, rel) {
            let m = choose|m: int| 0 <= m < a.len() && opens(#[trigger] a[m], rel);
            assert(all[m] == a[m]);
        } else {
            let m = choose|m: int| 0 <= m < b.len() && opens(#[trigger] b[m], rel);
            assert(all[a.len() + m] == b[m]);
        }
    }
    assert forall|rel: Seq<char>, x: int|
        some_stores(a, rel, x) || some_stores(b, rel, x) implies #[trigger] some_stores(
        all,
        rel,
        x,
    ) by {
        if some_stores(a, rel, x) {
            let m = choose|m: int| 0 <= m < a.len() && stores(#[trigger] a[m], rel, x);
            assert(all[m] == a[m]);
        } else {
            let m = choose|m: int| 0 <= m < b.len() && stores(#[trigger] b[m], rel, x);
            assert(all[a.len() + m] == b[m]);
        }
    }
}

/// Whether every segment can come through as its cut says.
pub open spec fn all_fit(cuts: Seq<Cut>, segs: Seq<Segment>) -> bool {
    &&& cuts.len() == segs.len()
    &&& forall|j: int| 0 <= j < cuts.len() ==> fits(#[trigger] cuts[j], segs[j].len)
}

proof fn lemma_stream(
    segs: Seq<Segment>,
    source: Map<Seq<char>, Seq<u8>>,
    cuts: Seq<Cut>,
    n: nat,
    t: Truth,
)
    requires
        segs.len() <= usize::MAX,
        all_fit(cuts, segs),
        forall|j: int| 0 <= j < segs.len() ==> tells_truth(#[trigger] segs[j], source, t),
        n <= segs.len(),
    ensures
        ({
            let x = stream(segs, source, cuts.take(n as int));
            &&& x.sender == enter(n as int, segs.len() as int, None).state
            &&& x.receiver == RecvState::Length
            &&& all_faithful(t, x.ops)
            &&& opened_first(x.ops)
            &&& forall|j: int|
                0 <= j < n ==> some_opens(x.ops, stripped((#[trigger] segs[j]).rel@))
            &&& forall|j: int, b: int|
                0 <= j < n && #[trigger] covers(segs[j], b) ==> some_stores(
                    x.ops,
                    stripped(segs[j].rel@),
                    b,
                )
            &&& sum(counts(x.ops)) == total_len(segs.take(n as int))
            &&& n > 0 ==> counts(x.ops).len() > 0
        }),
    decreases n,
{
    let x = stream(segs, source, cuts.take(n as int));
    if n == 0 {
        assert(segs.take(0).len() == 0);
    } else {
        let k = n - 1;
        let before = stream(segs, source, cuts.take(k));
        lemma_stream(segs, source, cuts, k as nat, t);
        assert(cuts.take(n as int).drop_last() =~= cuts.take(k));
        assert(cuts.take(n as int).last() == cuts[k]);
        assert(fits(cuts[k], segs[k].len));
        assert(tells_truth(segs[k], source, t));
        lemma_exchange(before, k as usize, segs, source, cuts[k]);
        let ops = segment_ops(segs[k], source, cuts[k]);
        lemma_segment_ops(segs[k], source, cuts[k], t);
        lemma_ops_concat(before.ops, ops, t);
        lemma_counts_concat(before.ops, ops);
        assert(x.ops == before.ops + ops);
        assert(segs.take(n as int).drop_last() =~= segs.take(k));
        assert forall|j: int| 0 <= j < n implies some_opens(
            x.ops,
            stripped((#[trigger] segs[j]).rel@),
        ) by {
            if j < k {
                assert(some_opens(before.ops, stripped(segs[j].rel@)));
            }
        }
        assert forall|j: int, b: int| 0 <= j < n && #[trigger] covers(segs[j], b) implies some_stores(
            x.ops,
            stripped(segs[j].rel@),
            b,
        ) by {
            if j < k {
                assert(some_stores(before.ops, stripped(segs[j].rel@), b));
            } else {
                assert(some_stores(ops, stripped(segs[j].rel@), b));
            }
        }
    }
}

/// Whether segment `k` is of the file that the receiver knows by a path.
pub open spec fn is_of(segs: Seq<Segment>, k: int, rel: Seq<char>) -> bool {
    0 <= k < segs.len() && stripped(segs[k].rel@) == rel
}

/// Whether the segments of one file agree: on its size, and on each byte that
/// more than one of them covers (none is, where they do not overlap).
pub open spec fn agree(segs: Seq<Segment>, source: Map<Seq<char>, Seq<u8>>) -> bool {
    &&& forall|j: int, k: int, rel: Seq<char>| #[trigger]
        is_of(segs, j, rel) && #[trigger] is_of(segs, k, rel) ==> segs[j].size == segs[k].size
    &&& forall|j: int, k: int, rel: Seq<char>, b: int|
        #![trigger is_of(segs, j, rel), is_of(segs, k, rel), covers(segs[j], b), covers(segs[k], b)]
        is_of(segs, j, rel) && is_of(segs, k, rel) && covers(segs[j], b) && covers(segs[k], b)
            ==> source[segs[j].path@][b] == source[segs[k].path@][b]
}

/// Whether no path is refused, and different paths lead to different files.
pub open spec fn apart_segments(place: Place, segs: Seq<Segment>) -> bool {
    &&& forall|k: int, rel: Seq<char>| #[trigger] is_of(segs, k, rel) ==> place.target(rel) is Ok
    &&& forall|j: int, k: int, r: Seq<char>, q: Seq<char>|
        #[trigger] is_of(segs, j, r) && #[trigger] is_of(segs, k, q) && r != q ==> place.target(r)
            != place.target(q)
}

/// Whether a file of the receiver's disk has a segment as the sender's disk has
/// it.
pub open spec fn holds_segment(
    disk: Map<Seq<Seq<char>>, Seq<u8>>,
    p: Seq<Seq<char>>,
    seg: Segment,
    source: Map<Seq<char>, Seq<u8>>,
) -> bool {
    &&& disk.contains_key(p)
    &&& disk[p].len() == seg.size
    &&& disk[p].subrange(seg.offset as int, seg.offset + seg.len)
        == source[seg.path@].subrange(seg.offset as int, seg.offset + seg.len)
}

/// Whether the path of some segment leads to a file.
pub open spec fn leads_to(place: Place, segs: Seq<Segment>, p: Seq<Seq<char>>) -> bool {
    exists|k: int, rel: Seq<char>| #[trigger]
        is_of(segs, k, rel) && place.target(rel) == Ok::<Seq<Seq<char>>, Seq<char>>(p)
}

/// Whether a file is the same on two disks, or on neither.
pub open spec fn same_at(
    a: Map<Seq<Seq<char>>, Seq<u8>>,
    b: Map<Seq<Seq<char>>, Seq<u8>>,
    p: Seq<Seq<char>>,
) -> bool {
    a.contains_key(p) == b.contains_key(p) && a[p] == b[p]
}

/// A stream that nothing fails on sends all its segments, empty ones too, and
/// they arrive: into a session without an open file, each segment's bytes come
/// to the place in the receiver's file that they have in the sender's, in a file
/// of the size that was told, below the session's place where the segment's path
/// leads. What was sent is counted, and no other file is touched.
pub proof fn law_stream_arrives(
    place: Place,
    disk: Map<Seq<Seq<char>>, Seq<u8>>,
    segs: Seq<Segment>,
    source: Map<Seq<char>, Seq<u8>>,
    cuts: Seq<Cut>,
)
    requires
        segs.len() <= usize::MAX,
        all_fit(cuts, segs),
        forall|j: int| 0 <= j < segs.len() ==> in_source(#[trigger] segs[j], source),
        agree(segs, source),
        apart_segments(place, segs),
    ensures
        stream(segs, source, cuts).sender == SendState::Finished,
        stream(segs, source, cuts).receiver == RecvState::Length,
        forall|j: int|
            0 <= j < segs.len() ==> holds_segment(
                after_ops(
                    place,
                    Received { open: Set::empty(), disk },
                    stream(segs, source, cuts).ops,
                ).disk,
                place.target(stripped(segs[j].rel@))->Ok_0,
                #[trigger] segs[j],
                source,
            ),
        forall|p: Seq<Seq<char>>|
            !leads_to(place, segs, p) ==> #[trigger] same_at(
                disk,
                after_ops(
                    place,
                    Received { open: Set::empty(), disk },
                    stream(segs, source, cuts).ops,
                ).disk,
                p,
            ),
        sum(counts(stream(segs, source, cuts).ops)) == total_len(segs),
{
    let t = Truth {
        rels: Set::new(|r: Seq<char>| exists|k: int| #[trigger] is_of(segs, k, r)),
        sizes: |r: Seq<char>| segs[choose|k: int| #[trigger] is_of(segs, k, r)].size,
        bytes: |r: Seq<char>, b: int|
            source[segs[choose|k: int| #[trigger] is_of(segs, k, r) && covers(segs[k], b)].path@][b],
    };
    assert forall|j: int| 0 <= j < segs.len() implies tells_truth(#[trigger] segs[j], source, t) by {
        let r = stripped(segs[j].rel@);
        assert(is_of(segs, j, r));
        assert forall|b: int| covers(segs[j], b) implies #[trigger] source[segs[j].path@][b]
            == (t.bytes)(r, b) by {
            assert(is_of(segs, j, r) && covers(segs[j], b));
            let k = choose|k: int| #[trigger] is_of(segs, k, r) && covers(segs[k], b);
            assert(is_of(segs, k, r) && covers(segs[k], b));
        }
    }
    let x = stream(segs, source, cuts);
    assert(cuts.take(cuts.len() as int) =~= cuts);
    assert(segs.take(segs.len() as int) =~= segs);
    lemma_stream(segs, source, cuts, segs.len(), t);
    let w0 = Received { open: Set::empty(), disk };
    let w = after_ops(place, w0, x.ops);
    assert(apart(place, t.rels));
    assert forall|j: int| 0 <= j < segs.len() implies holds_segment(
        w.disk,
        place.target(stripped(segs[j].rel@))->Ok_0,
        #[trigger] segs[j],
        source,
    ) by {
        let seg = segs[j];
        let r = stripped(seg.rel@);
        let p = place.target(r)->Ok_0;
        assert(is_of(segs, j, r));
        assert(t.rels.contains(r));
        assert(some_opens(x.ops, r));
        assert(tells_truth(seg, source, t));
        lemma_effect(place, disk, x.ops, t, r, 0);
        let a = w.disk[p].subrange(seg.offset as int, seg.offset + seg.len);
        let b = source[seg.path@].subrange(seg.offset as int, seg.offset + seg.len);
        assert forall|i: int| 0 <= i < seg.len implies a[i] == b[i] by {
            let at = seg.offset + i;
            assert(covers(segs[j], at));
            lemma_effect(place, disk, x.ops, t, r, at);
            assert(source[seg.path@][at] == (t.bytes)(r, at));
        }
        assert(a =~= b);
    }
    assert forall|p: Seq<Seq<char>>| !leads_to(place, segs, p) implies #[trigger] same_at(
        disk,
        w.disk,
        p,
    ) by {
        assert forall|r: Seq<char>| #[trigger] t.rels.contains(r) implies place.target(r) != Ok::<
            Seq<Seq<char>>,
            Seq<char>,
        >(p) by {
            let k = choose|k: int| #[trigger] is_of(segs, k, r);
            assert(is_of(segs, k, r));
        }
        lemma_elsewhere(place, w0, x.ops, t, p);
    }
}

/// What is left of the streams' operations before the last one of stream `k`.
pub open spec fn before_last(parts: Seq<Seq<DiskOp>>, k: int) -> Seq<Seq<DiskOp>> {
    parts.update(k, parts[k].drop_last())
}

/// Whether the turns are an order in which streams can do their operations, each
/// its own in order: `turns[m]` is the stream that does operation `m`.
pub open spec fn is_schedule(parts: Seq<Seq<DiskOp>>, turns: Seq<int>) -> bool
    decreases turns.len(),
{
    if turns.len() == 0 {
        forall|k: int| 0 <= k < parts.len() ==> (#[trigger] parts[k]).len() == 0
    } else {
        let k = turns.last();
        &&& 0 <= k < parts.len()
        &&& parts[k].len() > 0
        &&& is_schedule(before_last(parts, k), turns.drop_last())
    }
}

/// The operations of all streams in the order of the turns.
pub open spec fn merged(parts: Seq<Seq<DiskOp>>, turns: Seq<int>) -> Seq<DiskOp>
    decreases turns.len(),
{
    if turns.len() == 0 {
        Seq::empty()
    } else {
        let k = turns.last();
        merged(before_last(parts, k), turns.drop_last()).push(parts[k].last())
    }
}

/// What all streams count together.
spec fn counted(parts: Seq<Seq<DiskOp>>) -> nat
    decreases parts.len(),
{
    if parts.len() == 0 {
        0
    } else {
        counted(parts.drop_last()) + sum(counts(parts.last()))
    }
}

proof fn lemma_counted_update(parts: Seq<Seq<DiskOp>>, k: int)
    requires
        0 <= k < parts.len(),
        parts[k].len() > 0,
    ensures
        counted(parts) == counted(before_last(parts, k)) + (match parts[k].last() {
            DiskOp::Count(n) => n as nat,
            _ => 0,
        }),
    decreases parts.len(),
{
    let rest = before_last(parts, k);
    if k == parts.len() - 1 {
        assert(rest.drop_last() =~= parts.drop_last());
        lemma_counts_push(parts[k].drop_last(), parts[k].last());
        assert(parts[k].drop_last().push(parts[k].last()) =~= parts[k]);
    } else {
        lemma_counted_update(parts.drop_last(), k);
        assert(rest.drop_last() =~= before_last(parts.drop_last(), k));
    }
}

proof fn lemma_counted_none(parts: Seq<Seq<DiskOp>>)
    requires
        forall|k: int| 0 <= k < parts.len() ==> (#[trigger] parts[k]).len() == 0,
    ensures
        counted(parts) == 0,
    decreases parts.len(),
{
    if parts.len() > 0 {
        let init = parts.drop_last();
        assert forall|k: int| 0 <= k < init.len() implies (#[trigger] init[k]).len() == 0 by {
            assert(init[k] == parts[k]);
        }
        assert(parts[parts.len() - 1].len() == 0);
        lemma_counted_none(init);
    }
}

proof fn lemma_merged(parts: Seq<Seq<DiskOp>>, turns: Seq<int>, t: Truth)
    requires
        is_schedule(parts, turns),
        forall|k: int|
            0 <= k < parts.len() ==> all_faithful(t, #[trigger] parts[k]) && opened_first(parts[k]),
    ensures
        all_faithful(t, merged(parts, turns)),
        opened_first(merged(parts, turns)),
        forall|k: int, rel: Seq<char>|
            0 <= k < parts.len() && #[trigger] some_opens(parts[k], rel) ==> some_opens(
                merged(parts, turns),
                rel,
            ),
        forall|k: int, rel: Seq<char>, b: int|
            0 <= k < parts.len() && #[trigger] some_stores(parts[k], rel, b) ==> some_stores(
                merged(parts, turns),
                rel,
                b,
            ),
        sum(counts(merged(parts, turns))) == counted(parts),
        forall|k: int|
            0 <= k < parts.len() ==> counts(#[trigger] parts[k]).len() <= counts(
                merged(parts, turns),
            ).len(),
    decreases turns.len(),
{
    let all = merged(parts, turns);
    if turns.len() == 0 {
        lemma_counted_none(parts);
    } else {
        let k = turns.last();
        let rest = before_last(parts, k);
        let init = merged(rest, turns.drop_last());
        let part = parts[k];
        let op = part.last();
        assert(all_faithful(t, part) && opened_first(part));
        assert(part.drop_last().push(op) =~= part);
        lemma_opened_first_prefix(part);
        assert forall|j: int| 0 <= j < rest.len() implies all_faithful(t, #[trigger] rest[j])
            && opened_first(rest[j]) by {
            if j != k {
                assert(rest[j] == parts[j]);
            } else {
                assert forall|m: int| 0 <= m < rest[j].len() implies faithful(
                    t,
                    #[trigger] rest[j][m],
                ) by {
                    assert(rest[j][m] == part[m]);
                }
            }
        }
        lemma_merged(rest, turns.drop_last(), t);
        assert(rest[k] == part.drop_last());
        if let DiskOp::Store { rel, .. } = op {
            assert(some_opens(rest[k], rel));
        }
        lemma_opened_first_push(init, op);
        assert(faithful(t, part[part.len() - 1]));
        assert forall|m: int| 0 <= m < all.len() implies faithful(t, #[trigger] all[m]) by {
            if m < init.len() {
                assert(all[m] == init[m]);
            }
        }
        assert forall|j: int, rel: Seq<char>|
            0 <= j < parts.len() && #[trigger] some_opens(parts[j], rel) implies some_opens(
            all,
            rel,
        ) by {
            lemma_some_opens_push(init, op, rel);
            lemma_some_opens_push(part.drop_last(), op, rel);
            assert(some_opens(rest[j], rel) || opens(op, rel));
        }
        assert forall|j: int, rel: Seq<char>, b: int|
            0 <= j < parts.len() && #[trigger] some_stores(parts[j], rel, b) implies some_stores(
            all,
            rel,
            b,
        ) by {
            lemma_some_stores_push(init, op, rel, b);
            lemma_some_stores_push(part.drop_last(), op, rel, b);
            assert(some_stores(rest[j], rel, b) || stores(op, rel, b));
        }
        lemma_counts_push(init, op);
        lemma_counts_push(part.drop_last(), op);
        lemma_counted_update(parts, k);
        assert forall|j: int| 0 <= j < parts.len() implies counts(#[trigger] parts[j]).len()
            <= counts(all).len() by {
            assert(counts(rest[j]).len() <= counts(init).len());
        }
    }
}

/// What each stream of a plan does to the receiver's disk.
pub open spec fn plan_ops(
    buckets: Seq<Seq<Segment>>,
    source: Map<Seq<char>, Seq<u8>>,
    cuts: Seq<Seq<Cut>>,
) -> Seq<Seq<DiskOp>> {
    Seq::new(buckets.len(), |i: int| stream(buckets[i], source, cuts[i]).ops)
}

proof fn lemma_plan_counts(parts: Seq<Seq<DiskOp>>, buckets: Seq<Seq<Segment>>)
    requires
        parts.len() == buckets.len(),
        forall|i: int|
            0 <= i < parts.len() ==> sum(counts(#[trigger] parts[i])) == total_len(buckets[i]),
    ensures
        counted(parts) == streams_len(buckets),
    decreases parts.len(),
{
    if parts.len() > 0 {
        let p = parts.drop_last();
        let b = buckets.drop_last();
        assert forall|i: int| 0 <= i < p.len() implies sum(counts(#[trigger] p[i])) == total_len(
            b[i],
        ) by {
            assert(p[i] == parts[i]);
        }
        assert(sum(counts(parts[parts.len() - 1])) == total_len(buckets[buckets.len() - 1]));
        lemma_plan_counts(p, b);
    }
}

/// Where the receiver puts file `k` of a transfer.
pub open spec fn target_of(place: Place, entries: Seq<SendEntry>, k: int) -> Result<
    Seq<Seq<char>>,
    Seq<char>,
> {
    place.target(stripped(entries[k].rel@))
}

/// Whether a transfer can come through so: its files are on the sender's disk
/// with the sizes that were told, none of their paths is refused and each leads
/// to a file of its own, each segment of each stream fits its cut, and the turns
/// are an order for the streams.
pub open spec fn comes_through(
    place: Place,
    entries: Seq<SendEntry>,
    streams: Option<u32>,
    source: Map<Seq<char>, Seq<u8>>,
    cuts: Seq<Seq<Cut>>,
    turns: Seq<int>,
) -> bool {
    let buckets = planned_spread(entries, streams).buckets;
    &&& forall|k: int|
        0 <= k < entries.len() ==> source.contains_key((#[trigger] entries[k]).path@)
            && source[entries[k].path@].len() == entries[k].size
    &&& forall|k: int| 0 <= k < entries.len() ==> #[trigger] target_of(place, entries, k) is Ok
    &&& forall|j: int, k: int|
        0 <= j < k < entries.len() ==> #[trigger] target_of(place, entries, j)
            != #[trigger] target_of(place, entries, k)
    &&& cuts.len() == buckets.len()
    &&& forall|i: int|
        0 <= i < cuts.len() ==> all_fit(#[trigger] cuts[i], buckets[i]) && cuts[i].len()
            <= usize::MAX
    &&& is_schedule(plan_ops(buckets, source, cuts), turns)
}

/// All that a transfer does to the receiver's disk, in the order of the turns.
pub open spec fn transfer_ops(
    entries: Seq<SendEntry>,
    streams: Option<u32>,
    source: Map<Seq<char>, Seq<u8>>,
    cuts: Seq<Seq<Cut>>,
    turns: Seq<int>,
) -> Seq<DiskOp> {
    merged(plan_ops(planned_spread(entries, streams).buckets, source, cuts), turns)
}

/// Whether file `k` of a transfer is the one that the receiver knows by a path.
spec fn entry_of(entries: Seq<SendEntry>, k: int, rel: Seq<char>) -> bool {
    0 <= k < entries.len() && stripped(entries[k].rel@) == rel
}

/// What is true of the files of a transfer.
spec fn plan_truth(entries: Seq<SendEntry>, source: Map<Seq<char>, Seq<u8>>) -> Truth {
    Truth {
        rels: Set::new(|r: Seq<char>| exists|k: int| #[trigger] entry_of(entries, k, r)),
        sizes: |r: Seq<char>| entries[choose|k: int| #[trigger] entry_of(entries, k, r)].size,
        bytes: |r: Seq<char>, b: int|
            source[entries[choose|k: int| #[trigger] entry_of(entries, k, r)].path@][b],
    }
}

proof fn lemma_plan_truth(
    place: Place,
    entries: Seq<SendEntry>,
    streams: Option<u32>,
    source: Map<Seq<char>, Seq<u8>>,
    cuts: Seq<Seq<Cut>>,
    turns: Seq<int>,
    k: int,
)
    requires
        comes_through(place, entries, streams, source, cuts, turns),
        0 <= k < entries.len(),
    ensures
        plan_truth(entries, source).rels.contains(stripped(entries[k].rel@)),
        (plan_truth(entries, source).sizes)(stripped(entries[k].rel@)) == entries[k].size,
        forall|b: int| #[trigger]
            (plan_truth(entries, source).bytes)(stripped(entries[k].rel@), b)
                == source[entries[k].path@][b],
{
    let r = stripped(entries[k].rel@);
    assert(entry_of(entries, k, r));
    let m = choose|m: int| #[trigger] entry_of(entries, m, r);
    assert(entry_of(entries, m, r));
    assert(target_of(place, entries, m) == target_of(place, entries, k));
    assert(m == k);
}

proof fn lemma_plan_apart(
    place: Place,
    entries: Seq<SendEntry>,
    streams: Option<u32>,
    source: Map<Seq<char>, Seq<u8>>,
    cuts: Seq<Seq<Cut>>,
    turns: Seq<int>,
)
    requires
        comes_through(place, entries, streams, source, cuts, turns),
    ensures
        apart(place, plan_truth(entries, source).rels),
{
    let t = plan_truth(entries, source);
    assert forall|r: Seq<char>| #[trigger] t.rels.contains(r) implies place.target(r) is Ok by {
        let k = choose|k: int| #[trigger] entry_of(entries, k, r);
        assert(target_of(place, entries, k) is Ok);
    }
    assert forall|r: Seq<char>, q: Seq<char>|
        #[trigger] t.rels.contains(r) && #[trigger] t.rels.contains(q) && r != q implies place.target(
        r,
    ) != place.target(q) by {
        let j = choose|k: int| #[trigger] entry_of(entries, k, r);
        let k = choose|k: int| #[trigger] entry_of(entries, k, q);
        assert(target_of(place, entries, j) != target_of(place, entries, k));
    }
}

/// What a stream that is through has done.
spec fn stream_done(x: Exchange, segs: Seq<Segment>, t: Truth) -> bool {
    &&& x.sender == SendState::Finished
    &&& x.receiver == RecvState::Length
    &&& all_faithful(t, x.ops)
    &&& opened_first(x.ops)
    &&& forall|j: int|
        0 <= j < segs.len() ==> some_opens(x.ops, stripped((#[trigger] segs[j]).rel@))
    &&& forall|j: int, b: int|
        0 <= j < segs.len() && #[trigger] covers(segs[j], b) ==> some_stores(
            x.ops,
            stripped(segs[j].rel@),
            b,
        )
    &&& sum(counts(x.ops)) == total_len(segs)
    &&& segs.len() > 0 ==> counts(x.ops).len() > 0
}

proof fn lemma_plan_stream(
    place: Place,
    entries: Seq<SendEntry>,
    streams: Option<u32>,
    source: Map<Seq<char>, Seq<u8>>,
    cuts: Seq<Seq<Cut>>,
    turns: Seq<int>,
    i: int,
)
    requires
        comes_through(place, entries, streams, source, cuts, turns),
        0 <= i < cuts.len(),
    ensures
        stream_done(
            stream(planned_spread(entries, streams).buckets[i], source, cuts[i]),
            planned_spread(entries, streams).buckets[i],
            plan_truth(entries, source),
        ),
{
    let n = stream_limit(streams);
    let buckets = planned_spread(entries, streams).buckets;
    let t = plan_truth(entries, source);
    let segs = buckets[i];
    assert(all_fit(cuts[i], segs));
    assert forall|j: int| 0 <= j < segs.len() implies tells_truth(#[trigger] segs[j], source, t) by {
        let s = segs[j];
        assert(stands_at(buckets, i, j, s));
        law_planned_is_piece(entries, streams, i, j, s);
        let (k, m) = choose|k: int, m: int| #[trigger] is_piece(entries, n, k, m, s);
        law_pieces_tile(entries[k], n);
        assert(pieces(entries[k], n)[m] == s);
        assert(source.contains_key(entries[k].path@));
        lemma_plan_truth(place, entries, streams, source, cuts, turns, k);
        assert forall|b: int| covers(s, b) implies #[trigger] source[s.path@][b] == (t.bytes)(
            stripped(s.rel@),
            b,
        ) by {
            assert((t.bytes)(stripped(entries[k].rel@), b) == source[entries[k].path@][b]);
        }
    }
    assert(cuts[i].take(cuts[i].len() as int) =~= cuts[i]);
    assert(segs.take(segs.len() as int) =~= segs);
    lemma_stream(segs, source, cuts[i], segs.len(), t);
}

/// What the streams of a plan come to, whatever the turns.
proof fn lemma_transfer(
    place: Place,
    entries: Seq<SendEntry>,
    streams: Option<u32>,
    source: Map<Seq<char>, Seq<u8>>,
    cuts: Seq<Seq<Cut>>,
    turns: Seq<int>,
)
    requires
        comes_through(place, entries, streams, source, cuts, turns),
    ensures
        ({
            let buckets = planned_spread(entries, streams).buckets;
            let all = transfer_ops(entries, streams, source, cuts, turns);
            &&& all_faithful(plan_truth(entries, source), all)
            &&& opened_first(all)
            &&& forall|i: int, j: int, s: Segment| #[trigger]
                stands_at(buckets, i, j, s) ==> some_opens(all, stripped(s.rel@)) && counts(all).len()
                    > 0
            &&& forall|i: int, j: int, s: Segment, b: int| #[trigger]
                stands_at(buckets, i, j, s) && #[trigger] covers(s, b) ==> some_stores(
                    all,
                    stripped(s.rel@),
                    b,
                )
            &&& sum(counts(all)) == total_size(entries)
        }),
{
    let buckets = planned_spread(entries, streams).buckets;
    let parts = plan_ops(buckets, source, cuts);
    let t = plan_truth(entries, source);
    let all = transfer_ops(entries, streams, source, cuts, turns);
    assert forall|i: int| 0 <= i < parts.len() implies all_faithful(t, #[trigger] parts[i])
        && opened_first(parts[i]) && sum(counts(parts[i])) == total_len(buckets[i]) by {
        lemma_plan_stream(place, entries, streams, source, cuts, turns, i);
    }
    lemma_merged(parts, turns, t);
    assert forall|i: int, j: int, s: Segment| #[trigger] stands_at(buckets, i, j, s) implies some_opens(
        all,
        stripped(s.rel@),
    ) && counts(all).len() > 0 by {
        lemma_plan_stream(place, entries, streams, source, cuts, turns, i);
        assert(some_opens(parts[i], stripped(buckets[i][j].rel@)));
        assert(counts(parts[i]).len() <= counts(all).len());
    }
    assert forall|i: int, j: int, s: Segment, b: int| #[trigger]
        stands_at(buckets, i, j, s) && #[trigger] covers(s, b) implies some_stores(
        all,
        stripped(s.rel@),
        b,
    ) by {
        lemma_plan_stream(place, entries, streams, source, cuts, turns, i);
        assert(covers(buckets[i][j], b));
        assert(some_stores(parts[i], stripped(s.rel@), b));
    }
    lemma_plan_counts(parts, buckets);
    law_plan_total(entries, streams);
}

proof fn lemma_file_arrives(
    place: Place,
    disk: Map<Seq<Seq<char>>, Seq<u8>>,
    entries: Seq<SendEntry>,
    streams: Option<u32>,
    source: Map<Seq<char>, Seq<u8>>,
    cuts: Seq<Seq<Cut>>,
    turns: Seq<int>,
    k: int,
)
    requires
        comes_through(place, entries, streams, source, cuts, turns),
        0 <= k < entries.len(),
    ensures
        ({
            let after = after_ops(
                place,
                Received { open: Set::empty(), disk },
                transfer_ops(entries, streams, source, cuts, turns),
            ).disk;
            let p = target_of(place, entries, k)->Ok_0;
            after.contains_key(p) && after[p] == source[entries[k].path@]
        }),
{
    let n = stream_limit(streams);
    let buckets = planned_spread(entries, streams).buckets;
    let t = plan_truth(entries, source);
    let all = transfer_ops(entries, streams, source, cuts, turns);
    let after = after_ops(place, Received { open: Set::empty(), disk }, all).disk;
    let e = entries[k];
    let r = stripped(e.rel@);
    let p = target_of(place, entries, k)->Ok_0;
    assert(target_of(place, entries, k) is Ok);
    lemma_plan_truth(place, entries, streams, source, cuts, turns, k);
    lemma_plan_apart(place, entries, streams, source, cuts, turns);
    lemma_transfer(place, entries, streams, source, cuts, turns);
    law_pieces_tile(e, n);
    law_every_piece_planned(entries, streams, k, 0);
    let s = pieces(e, n)[0];
    let (i, j) = choose|i: int, j: int| #[trigger] stands_at(buckets, i, j, s);
    assert(stands_at(buckets, i, j, s));
    assert(some_opens(all, r));
    lemma_effect(place, disk, all, t, r, 0);
    assert forall|b: int| 0 <= b < e.size implies after[p][b] == source[e.path@][b] by {
        law_plan_covers_every_byte(entries, streams, k, b);
        let (x, y, z) = choose|x: int, y: int, z: Segment| #[trigger]
            stands_at(buckets, x, y, z) && z.path == e.path && z.rel == e.rel && z.size == e.size
                && covers(z, b);
        assert(stands_at(buckets, x, y, z) && covers(z, b));
        assert(some_stores(all, r, b));
        lemma_effect(place, disk, all, t, r, b);
        assert((t.bytes)(r, b) == source[e.path@][b]);
    }
    assert(source.contains_key(e.path@));
    assert(after[p] =~= source[e.path@]);
}

/// Whether some file of a transfer goes to a file of the receiver's disk.
pub open spec fn goes_to(place: Place, entries: Seq<SendEntry>, p: Seq<Seq<char>>) -> bool {
    exists|k: int|
        0 <= k < entries.len() && #[trigger] target_of(place, entries, k) == Ok::<
            Seq<Seq<char>>,
            Seq<char>,
        >(p)
}

/// A transfer arrives, byte for byte: however its streams take turns and however
/// the bytes are cut on the way, once all streams of a plan are through, each
/// file is on the receiver's disk with exactly the bytes that it has on the
/// sender's, and no other file is touched. The session has no file open at the
/// start, and nothing fails.
pub proof fn law_plan_arrives(
    place: Place,
    disk: Map<Seq<Seq<char>>, Seq<u8>>,
    entries: Seq<SendEntry>,
    streams: Option<u32>,
    source: Map<Seq<char>, Seq<u8>>,
    cuts: Seq<Seq<Cut>>,
    turns: Seq<int>,
)
    requires
        comes_through(place, entries, streams, source, cuts, turns),
    ensures
        forall|i: int|
            0 <= i < cuts.len() ==> {
                let x = stream(planned_spread(entries, streams).buckets[i], source, #[trigger] cuts[i]);
                x.sender == SendState::Finished && x.receiver == RecvState::Length
            },
        ({
            let after = after_ops(
                place,
                Received { open: Set::empty(), disk },
                transfer_ops(entries, streams, source, cuts, turns),
            ).disk;
            &&& forall|k: int|
                0 <= k < entries.len() ==> after.contains_key(
                    (#[trigger] target_of(place, entries, k))->Ok_0,
                ) && after[target_of(place, entries, k)->Ok_0] == source[entries[k].path@]
            &&& forall|p: Seq<Seq<char>>|
                !goes_to(place, entries, p) ==> #[trigger] same_at(disk, after, p)
        }),
{
    let t = plan_truth(entries, source);
    let all = transfer_ops(entries, streams, source, cuts, turns);
    let w0 = Received { open: Set::empty(), disk };
    let after = after_ops(place, w0, all).disk;
    assert forall|i: int| 0 <= i < cuts.len() implies {
        let x = stream(planned_spread(entries, streams).buckets[i], source, #[trigger] cuts[i]);
        x.sender == SendState::Finished && x.receiver == RecvState::Length
    } by {
        lemma_plan_stream(place, entries, streams, source, cuts, turns, i);
    }
    assert forall|k: int| 0 <= k < entries.len() implies after.contains_key(
        (#[trigger] target_of(place, entries, k))->Ok_0,
    ) && after[target_of(place, entries, k)->Ok_0] == source[entries[k].path@] by {
        lemma_file_arrives(place, disk, entries, streams, source, cuts, turns, k);
    }
    lemma_transfer(place, entries, streams, source, cuts, turns);
    assert forall|p: Seq<Seq<char>>| !goes_to(place, entries, p) implies #[trigger] same_at(
        disk,
        after,
        p,
    ) by {
        assert forall|r: Seq<char>| #[trigger] t.rels.contains(r) implies place.target(r) != Ok::<
            Seq<Seq<char>>,
            Seq<char>,
        >(p) by {
            let k = choose|k: int| #[trigger] entry_of(entries, k, r);
            assert(target_of(place, entries, k) == place.target(r));
        }
        lemma_elsewhere(place, w0, all, t, p);
    }
}

/// A transfer is counted in full: every byte of its files once, so that a session
/// that was told of them is completed by it, and once only.
pub proof fn law_plan_counted(
    place: Place,
    entries: Seq<SendEntry>,
    streams: Option<u32>,
    source: Map<Seq<char>, Seq<u8>>,
    cuts: Seq<Seq<Cut>>,
    turns: Seq<int>,
)
    requires
        comes_through(place, entries, streams, source, cuts, turns),
        entries.len() > 0,
        total_size(entries) <= u64::MAX,
    ensures
        ({
            let ns = counts(transfer_ops(entries, streams, source, cuts, turns));
            &&& sum(ns) == total_size(entries)
            &&& completions(
                Progress { total: total_size(entries) as u64, got: 0, done: false },
                ns,
            ) == 1
        }),
{
    let n = stream_limit(streams);
    let buckets = planned_spread(entries, streams).buckets;
    let all = transfer_ops(entries, streams, source, cuts, turns);
    lemma_transfer(place, entries, streams, source, cuts, turns);
    let start = Progress { total: total_size(entries) as u64, got: 0, done: false };
    law_completed_once(start, counts(all));
    law_pieces_tile(entries[0], n);
    law_every_piece_planned(entries, streams, 0, 0);
    let s = pieces(entries[0], n)[0];
    let (i, j) = choose|i: int, j: int| #[trigger] stands_at(buckets, i, j, s);
    assert(stands_at(buckets, i, j, s));
}

} // verus!
