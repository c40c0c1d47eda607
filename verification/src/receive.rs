//! The receiving end of a LAN connection, step by step.
//!
//! [`step`] decides; whoever owns the socket and the file carries out the
//! action and reports back what happened.

use vstd::prelude::*;
use crate::wire::{accepted_len, header_len, MAX_HEADER};

verus! {

/// How many bytes are read at a time, at most.
pub const CHUNK: u64 = 1024 * 1024;

/// What the connection waits for.
#[derive(Clone, Copy)]
pub enum RecvState {
    /// The four bytes of a header's length.
    Length,
    /// The header.
    Header,
    /// The file that the header names.
    File { offset: u64, len: u64 },
    /// The answer to the header to be on its way.
    Answer { offset: u64, len: u64 },
    /// Bytes of the segment: the next one goes to `off`.
    Chunk { off: u64, remaining: u64 },
    /// Bytes that were read to be in the file.
    Store { off: u64, remaining: u64, n: u64 },
    /// Nothing any more.
    Closed,
}

/// What happened.
#[derive(Clone, Copy)]
pub enum RecvEvent {
    /// The four bytes of a length were read.
    Length([u8; 4]),
    /// A header was read; `known` says whether its token belongs to a session.
    Header { offset: u64, len: u64, known: bool },
    /// The file is open.
    Opened,
    /// The answer was sent.
    Answered,
    /// This many bytes were read; none means that the peer is gone.
    Read(u64),
    /// The bytes are in the file.
    Stored,
    /// What was asked for could not be done.
    Failed,
}

/// What to do next.
#[derive(Clone, Copy)]
pub enum RecvAction {
    /// Read the four bytes of a header's length.
    ReadLength,
    /// Read a header of this many bytes.
    ReadHeader(usize),
    /// Find the file that the header names.
    OpenFile,
    /// Tell the sender that its token was accepted.
    Accept,
    /// Tell the sender that its token is not known, then close.
    Refuse,
    /// Read up to this many bytes.
    ReadChunk(u64),
    /// Write the bytes that were read at this place in the file.
    StoreChunk { off: u64, n: u64 },
    /// Close the connection.
    Close,
}

/// A step: how many bytes to count as received, if any, before the action.
#[derive(Clone, Copy)]
pub struct RecvStep {
    pub state: RecvState,
    pub got: Option<u64>,
    pub action: RecvAction,
}

/// How many bytes to ask for at once.
pub open spec fn wanted(remaining: u64) -> u64 {
    if remaining < CHUNK {
        remaining
    } else {
        CHUNK
    }
}

/// The end of a connection.
pub open spec fn closing(action: RecvAction) -> RecvStep {
    RecvStep { state: RecvState::Closed, got: None, action }
}

/// Back to the next header.
pub open spec fn next_header(got: u64) -> RecvStep {
    RecvStep { state: RecvState::Length, got: Some(got), action: RecvAction::ReadLength }
}

/// The next step. What does not belong to the state ends the connection.
pub open spec fn recv_next(s: RecvState, e: RecvEvent) -> RecvStep {
    match (s, e) {
        (RecvState::Length, RecvEvent::Length(b)) => match accepted_len(b@) {
            Some(n) => RecvStep {
                state: RecvState::Header,
                got: None,
                action: RecvAction::ReadHeader(n),
            },
            None => closing(RecvAction::Close),
        },
        (RecvState::Header, RecvEvent::Header { offset, len, known }) => if known {
            RecvStep {
                state: RecvState::File { offset, len },
                got: None,
                action: RecvAction::OpenFile,
            }
        } else {
            closing(RecvAction::Refuse)
        },
        (RecvState::File { offset, len }, RecvEvent::Opened) => RecvStep {
            state: RecvState::Answer { offset, len },
            got: None,
            action: RecvAction::Accept,
        },
        (RecvState::Answer { offset, len }, RecvEvent::Answered) => if len == 0 {
            next_header(0)
        } else {
            RecvStep {
                state: RecvState::Chunk { off: offset, remaining: len },
                got: None,
                action: RecvAction::ReadChunk(wanted(len)),
            }
        },
        (RecvState::Chunk { off, remaining }, RecvEvent::Read(n)) => if 0 < n <= wanted(remaining) {
            RecvStep {
                state: RecvState::Store { off, remaining, n },
                got: None,
                action: RecvAction::StoreChunk { off, n },
            }
        } else {
            closing(RecvAction::Close)
        },
        (RecvState::Store { off, remaining, n }, RecvEvent::Stored) => if off + n > u64::MAX || n
            > remaining {
            closing(RecvAction::Close)
        } else if n == remaining {
            next_header(n)
        } else {
            RecvStep {
                state: RecvState::Chunk { off: (off + n) as u64, remaining: (remaining - n) as u64 },
                got: Some(n),
                action: RecvAction::ReadChunk(wanted((remaining - n) as u64)),
            }
        },
        _ => closing(RecvAction::Close),
    }
}

/// The first step of a connection.
pub fn start() -> (r: RecvStep)
    ensures
        r.state == RecvState::Length,
        r.got is None,
        r.action == RecvAction::ReadLength,
{
    RecvStep { state: RecvState::Length, got: None, action: RecvAction::ReadLength }
}

fn want(remaining: u64) -> (r: u64)
    ensures
        r == wanted(remaining),
{
    if remaining < CHUNK {
        remaining
    } else {
        CHUNK
    }
}

fn close_with(action: RecvAction) -> (r: RecvStep)
    ensures
        r == closing(action),
{
    RecvStep { state: RecvState::Closed, got: None, action }
}

fn to_next_header(got: u64) -> (r: RecvStep)
    ensures
        r == next_header(got),
{
    RecvStep { state: RecvState::Length, got: Some(got), action: RecvAction::ReadLength }
}

/// Decides what a connection does next. A segment's bytes go to the file in
/// order, from the header's offset on; a token that is not known is refused;
/// whatever fails or does not belong ends the connection.
pub fn step(s: RecvState, e: RecvEvent) -> (r: RecvStep)
    ensures
        r == recv_next(s, e),
{
    match (s, e) {
        (RecvState::Length, RecvEvent::Length(b)) => match header_len(b) {
            Some(n) => RecvStep {
                state: RecvState::Header,
                got: None,
                action: RecvAction::ReadHeader(n),
            },
            None => close_with(RecvAction::Close),
        },
        (RecvState::Header, RecvEvent::Header { offset, len, known }) => {
            if known {
                RecvStep {
                    state: RecvState::File { offset, len },
                    got: None,
                    action: RecvAction::OpenFile,
                }
            } else {
                close_with(RecvAction::Refuse)
            }
        },
        (RecvState::File { offset, len }, RecvEvent::Opened) => RecvStep {
            state: RecvState::Answer { offset, len },
            got: None,
            action: RecvAction::Accept,
        },
        (RecvState::Answer { offset, len }, RecvEvent::Answered) => {
            if len == 0 {
                to_next_header(0)
            } else {
                RecvStep {
                    state: RecvState::Chunk { off: offset, remaining: len },
                    got: None,
                    action: RecvAction::ReadChunk(want(len)),
                }
            }
        },
        (RecvState::Chunk { off, remaining }, RecvEvent::Read(n)) => {
            if 0 < n && n <= want(remaining) {
                RecvStep {
                    state: RecvState::Store { off, remaining, n },
                    got: None,
                    action: RecvAction::StoreChunk { off, n },
                }
            } else {
                close_with(RecvAction::Close)
            }
        },
        (RecvState::Store { off, remaining, n }, RecvEvent::Stored) => {
            if off > u64::MAX - n || n > remaining {
                close_with(RecvAction::Close)
            } else if n == remaining {
                to_next_header(n)
            } else {
                RecvStep {
                    state: RecvState::Chunk { off: off + n, remaining: remaining - n },
                    got: Some(n),
                    action: RecvAction::ReadChunk(want(remaining - n)),
                }
            }
        },
        _ => close_with(RecvAction::Close),
    }
}

/// A connection that is closed stays closed.
pub proof fn law_closed_stays_closed(e: RecvEvent)
    ensures
        recv_next(RecvState::Closed, e) == closing(RecvAction::Close),
{
}

/// A failure of any kind ends the connection, and nothing is counted.
pub proof fn law_failure_closes(s: RecvState)
    ensures
        recv_next(s, RecvEvent::Failed) == closing(RecvAction::Close),
{
}

/// A header with a token that is not known is answered with a refusal, the
/// connection ends, and nothing is counted or written.
pub proof fn law_unknown_token_refused(offset: u64, len: u64)
    ensures
        recv_next(RecvState::Header, RecvEvent::Header { offset, len, known: false }) == closing(
            RecvAction::Refuse,
        ),
{
}

/// A connection holds little at a time, however large the file: it never reads
/// more than [`CHUNK`] bytes of a segment or [`MAX_HEADER`] bytes of a header.
pub proof fn law_reads_are_bounded(s: RecvState, e: RecvEvent)
    ensures
        recv_next(s, e).action matches RecvAction::ReadChunk(n) ==> n <= CHUNK,
        recv_next(s, e).action matches RecvAction::ReadHeader(n) ==> 0 < n <= MAX_HEADER,
        recv_next(s, e).action matches RecvAction::StoreChunk { off, n } ==> 0 < n <= CHUNK,
{
}

/// How many bytes some reads brought.
pub open spec fn sum(reads: Seq<u64>) -> nat
    decreases reads.len(),
{
    if reads.len() == 0 {
        0
    } else {
        sum(reads.drop_last()) + reads.last() as nat
    }
}

/// Reads that a peer can bring for a segment of `len` bytes: each brings
/// something, and never more than was asked for.
pub open spec fn possible_reads(len: u64, reads: Seq<u64>) -> bool
    decreases reads.len(),
{
    reads.len() > 0 ==> {
        let before = sum(reads.drop_last());
        &&& possible_reads(len, reads.drop_last())
        &&& before < len
        &&& 0 < reads.last() <= wanted((len - before) as u64)
    }
}

/// The state after some reads, each of which was stored.
pub open spec fn after_reads(s: RecvState, reads: Seq<u64>) -> RecvState
    decreases reads.len(),
{
    if reads.len() == 0 {
        s
    } else {
        let before = after_reads(s, reads.drop_last());
        recv_next(recv_next(before, RecvEvent::Read(reads.last())).state, RecvEvent::Stored).state
    }
}

/// The bytes of a segment go to the file in order and without a gap: each read
/// is stored right behind the ones before it and is counted, and once `len`
/// bytes have come the connection waits for the next header, not earlier and
/// not later.
pub proof fn law_segment_stored_in_order(offset: u64, len: u64, reads: Seq<u64>)
    requires
        len > 0,
        offset + len <= u64::MAX,
        possible_reads(len, reads),
    ensures
        sum(reads) <= len,
        after_reads(RecvState::Chunk { off: offset, remaining: len }, reads) == (if sum(reads)
            == len {
            RecvState::Length
        } else {
            RecvState::Chunk {
                off: (offset + sum(reads)) as u64,
                remaining: (len - sum(reads)) as u64,
            }
        }),
        reads.len() > 0 ==> {
            let before = after_reads(
                RecvState::Chunk { off: offset, remaining: len },
                reads.drop_last(),
            );
            let read = recv_next(before, RecvEvent::Read(reads.last()));
            &&& read.action == RecvAction::StoreChunk {
                off: (offset + sum(reads.drop_last())) as u64,
                n: reads.last(),
            }
            &&& recv_next(read.state, RecvEvent::Stored).got == Some(reads.last())
        },
    decreases reads.len(),
{
    if reads.len() > 0 {
        law_segment_stored_in_order(offset, len, reads.drop_last());
    }
}

/// The state after a segment: its header's length and its header are read, its
/// file is opened, it is answered, and its bytes come with some reads.
pub open spec fn after_segment(
    s: RecvState,
    length: [u8; 4],
    offset: u64,
    len: u64,
    reads: Seq<u64>,
) -> RecvState {
    let announced = recv_next(s, RecvEvent::Length(length)).state;
    let named = recv_next(announced, RecvEvent::Header { offset, len, known: true }).state;
    let open = recv_next(named, RecvEvent::Opened).state;
    after_reads(recv_next(open, RecvEvent::Answered).state, reads)
}

/// A segment that comes in full leaves the connection as it was before it, so
/// that any number of segments can follow each other.
pub proof fn law_segment_then_next(length: [u8; 4], offset: u64, len: u64, reads: Seq<u64>)
    requires
        accepted_len(length@) is Some,
        offset + len <= u64::MAX,
        possible_reads(len, reads),
        sum(reads) == len,
    ensures
        after_segment(RecvState::Length, length, offset, len, reads) == RecvState::Length,
{
    if len > 0 {
        law_segment_stored_in_order(offset, len, reads);
    }
}

/// A connection goes on in one way only from each state: with what was asked for.
/// Whatever else happens ends it, and so do a length that no header can have, a
/// token that is not known, and a read that brings nothing or more than was asked
/// for.
pub proof fn law_only_expected_goes_on(s: RecvState, e: RecvEvent)
    ensures
        recv_next(s, e).state != RecvState::Closed <==> (match (s, e) {
            (RecvState::Length, RecvEvent::Length(b)) => 1 <= b@[0] * 16777216 + b@[1] * 65536 + b@[2]
                * 256 + b@[3] <= 65536,
            (RecvState::Header, RecvEvent::Header { known, .. }) => known,
            (RecvState::File { .. }, RecvEvent::Opened) => true,
            (RecvState::Answer { .. }, RecvEvent::Answered) => true,
            (RecvState::Chunk { remaining, .. }, RecvEvent::Read(n)) => 0 < n <= remaining && n
                <= 1048576,
            (RecvState::Store { off, remaining, n }, RecvEvent::Stored) => n <= remaining && off + n
                <= u64::MAX,
            _ => false,
        }),
        recv_next(s, e).state == RecvState::Closed ==> recv_next(s, e).got is None && (recv_next(
            s,
            e,
        ).action == RecvAction::Close || (recv_next(s, e).action == RecvAction::Refuse
            && s == RecvState::Header && e is Header && !e->known)),
{
}

/// What a connection does is what it is at: the file is opened for a header with a
/// known token alone, that header is accepted once the file is open, and the bytes
/// that are stored are those just read.
pub proof fn law_actions_follow(s: RecvState, e: RecvEvent)
    ensures
        recv_next(s, e).action == RecvAction::OpenFile <==> s == RecvState::Header && e is Header
            && e->known,
        recv_next(s, e).action == RecvAction::Refuse <==> s == RecvState::Header && e is Header
            && !e->known,
        recv_next(s, e).action == RecvAction::Accept <==> s is File && e is Opened,
        recv_next(s, e).action is StoreChunk ==> s is Chunk && e == RecvEvent::Read(
            recv_next(s, e).action->n,
        ) && recv_next(s, e).action->off == s->Chunk_off,
        recv_next(s, e).action is ReadHeader ==> s == RecvState::Length && e is Length,
        s == RecvState::Header && e is Header && e->known ==> recv_next(s, e).state == (
        RecvState::File { offset: e->offset, len: e->len }),
        s is File && e is Opened ==> recv_next(s, e).state == (RecvState::Answer {
            offset: s->File_offset,
            len: s->File_len,
        }),
{
}

/// Bytes are counted once they are stored, as many as were stored, and nothing
/// else is counted but that an empty segment has come.
pub proof fn law_counted_when_stored(s: RecvState, e: RecvEvent)
    ensures
        recv_next(s, e).got matches Some(n) ==> (s is Store && e is Stored && n == s->n) || (s
            is Answer && e is Answered && s->Answer_len == 0 && n == 0),
        s is Store && e is Stored && recv_next(s, e).state != RecvState::Closed ==> recv_next(s, e).got
            == Some(s->n),
        s is Answer && e is Answered && s->Answer_len == 0 ==> recv_next(s, e).got == Some(0u64)
            && recv_next(s, e).state == RecvState::Length,
{
}

/// As much is asked for as there is, up to 1 MiB at a time.
pub proof fn law_asks_for_all_up_to_a_mebibyte(remaining: u64)
    ensures
        remaining <= 1048576 ==> wanted(remaining) == remaining,
        remaining > 1048576 ==> wanted(remaining) == 1048576,
{
}

/// Each read of a segment brings what was asked for or less, so that the reads of
/// a segment are those whose sum never passes its length.
pub proof fn law_sum_grows(reads: Seq<u64>, n: u64)
    ensures
        sum(reads.push(n)) == sum(reads) + n,
        sum(Seq::empty()) == 0,
{
    assert(reads.push(n).drop_last() =~= reads);
}

/// What a connection waits for is what it is told to do: it asks for a length, for
/// as many bytes of header as the length says, for the file, for the answer to be
/// sent, for what is left of a segment up to 1 MiB, and for what was read to be
/// stored.
pub proof fn law_does_what_it_waits_for(s: RecvState, e: RecvEvent)
    ensures
        match recv_next(s, e).state {
            RecvState::Length => recv_next(s, e).action == RecvAction::ReadLength,
            RecvState::Header => s == RecvState::Length && e is Length && recv_next(s, e).action
                is ReadHeader && recv_next(s, e).action->ReadHeader_0 == ((e->Length_0@[0] * 256
                + e->Length_0@[1]) * 256 + e->Length_0@[2]) * 256 + e->Length_0@[3],
            RecvState::File { .. } => recv_next(s, e).action == RecvAction::OpenFile,
            RecvState::Answer { .. } => recv_next(s, e).action == RecvAction::Accept,
            RecvState::Chunk { remaining, .. } => recv_next(s, e).action is ReadChunk && recv_next(
                s,
                e,
            ).action->ReadChunk_0 == (if remaining <= 1048576 {
                remaining
            } else {
                1048576
            }),
            RecvState::Store { off, n, .. } => recv_next(s, e).action == (RecvAction::StoreChunk {
                off,
                n,
            }),
            RecvState::Closed => true,
        },
        s is Answer && e is Answered && s->Answer_len > 0 ==> recv_next(s, e).state == (
        RecvState::Chunk { off: s->Answer_offset, remaining: s->Answer_len }),
        s is Chunk && e is Read && recv_next(s, e).state != RecvState::Closed ==> recv_next(s, e).state
            == (RecvState::Store {
            off: s->Chunk_off,
            remaining: s->Chunk_remaining,
            n: e->Read_0,
        }),
        s is Store && e is Stored && s->n < s->Store_remaining && s->Store_off + s->n <= u64::MAX
            ==> recv_next(s, e).state == (RecvState::Chunk {
            off: (s->Store_off + s->n) as u64,
            remaining: (s->Store_remaining - s->n) as u64,
        }),
        s is Store && e is Stored && s->n == s->Store_remaining && s->Store_off + s->n <= u64::MAX
            ==> recv_next(s, e).state == RecvState::Length,
{
}

} // verus!
