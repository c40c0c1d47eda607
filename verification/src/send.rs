//! The sending end of a LAN connection, step by step, and what is made of all
//! the streams of a transfer together.
//!
//! [`step`] decides; whoever owns the socket and the files carries out the
//! action and reports back what happened.

use vstd::prelude::*;
use vstd::string::*;
use crate::plan::Segment;
use crate::receive::{sum, possible_reads, wanted, law_segment_stored_in_order, RecvState, CHUNK};
use crate::wire::ACK;

verus! {

/// What a stream waits for. `i` is the segment at hand.
#[derive(Clone, Copy)]
pub enum SendState {
    /// Leave to announce the segment.
    Segment { i: usize },
    /// The header to be on its way.
    Header { i: usize },
    /// The receiver's answer.
    Answer { i: usize },
    /// The file to be open at the segment's start.
    File { i: usize },
    /// Leave to read on.
    Body { i: usize, remaining: u64 },
    /// Bytes of the file.
    Chunk { i: usize, remaining: u64 },
    /// Bytes that were read to be on their way.
    Sending { i: usize, remaining: u64, n: u64 },
    /// Nothing any more: everything was sent.
    Finished,
    /// Nothing any more: the stream gave up.
    GaveUp,
}

/// What happened.
#[derive(Clone, Copy)]
pub enum SendEvent {
    /// Whether the transfer was cancelled.
    Leave { cancelled: bool },
    /// The header was sent.
    Announced,
    /// The receiver answered with this byte.
    Answered(u8),
    /// The file is open at the segment's start.
    Opened,
    /// This many bytes were read; none means that the file ends here.
    Read(u64),
    /// The bytes were sent.
    Sent,
    /// What was asked for could not be done.
    Failed,
}

/// Why a stream gives up.
#[derive(Clone, Copy)]
pub enum SendFailure {
    Cancelled,
    /// The receiver did not answer.
    NoAnswer,
    /// The receiver does not know the token.
    Rejected,
    /// The file has fewer bytes than it had.
    FileShrank,
    /// Reading or writing failed.
    Io,
}

/// What to do next.
#[derive(Clone, Copy)]
pub enum SendAction {
    /// See whether the transfer was cancelled.
    AskLeave,
    /// Send the header of this segment.
    SendHeader(usize),
    /// Read the receiver's answer, one byte.
    ReadAnswer,
    /// Open the file of this segment, at the segment's start.
    OpenFile(usize),
    /// Read up to this many bytes of the file.
    ReadChunk(u64),
    /// Send the bytes that were read.
    SendChunk(u64),
    /// Everything was sent.
    Finish,
    /// Give up.
    Fail(SendFailure),
}

/// A step: how many bytes to count as sent, if any, before the action.
#[derive(Clone, Copy)]
pub struct SendStep {
    pub state: SendState,
    pub sent: Option<u64>,
    pub action: SendAction,
}

/// The lengths of a stream's segments.
pub open spec fn lens(segs: Seq<Segment>) -> Seq<u64> {
    segs.map_values(|s: Segment| s.len)
}

/// On to segment `i`, or to the end where there is none.
pub open spec fn enter(i: int, count: int, sent: Option<u64>) -> SendStep {
    if i < count {
        SendStep {
            state: SendState::Segment { i: i as usize },
            sent,
            action: SendAction::AskLeave,
        }
    } else {
        SendStep { state: SendState::Finished, sent, action: SendAction::Finish }
    }
}

/// The end of a stream that gives up.
pub open spec fn giving_up(why: SendFailure) -> SendStep {
    SendStep { state: SendState::GaveUp, sent: None, action: SendAction::Fail(why) }
}

/// The next step, for segments with the given lengths. What does not belong to
/// the state ends the stream.
pub open spec fn send_next(s: SendState, e: SendEvent, lens: Seq<u64>) -> SendStep {
    match (s, e) {
        (SendState::Segment { i }, SendEvent::Leave { cancelled }) => if cancelled {
            giving_up(SendFailure::Cancelled)
        } else {
            SendStep {
                state: SendState::Header { i },
                sent: None,
                action: SendAction::SendHeader(i),
            }
        },
        (SendState::Header { i }, SendEvent::Announced) => SendStep {
            state: SendState::Answer { i },
            sent: None,
            action: SendAction::ReadAnswer,
        },
        (SendState::Answer { i }, SendEvent::Answered(b)) => if b != ACK {
            giving_up(SendFailure::Rejected)
        } else if i >= lens.len() {
            giving_up(SendFailure::Io)
        } else if lens[i as int] == 0 {
            enter(i + 1, lens.len() as int, None)
        } else {
            SendStep { state: SendState::File { i }, sent: None, action: SendAction::OpenFile(i) }
        },
        (SendState::Answer { i }, SendEvent::Failed) => giving_up(SendFailure::NoAnswer),
        (SendState::File { i }, SendEvent::Opened) => if i >= lens.len() {
            giving_up(SendFailure::Io)
        } else {
            SendStep {
                state: SendState::Body { i, remaining: lens[i as int] },
                sent: None,
                action: SendAction::AskLeave,
            }
        },
        (SendState::Body { i, remaining }, SendEvent::Leave { cancelled }) => if cancelled {
            giving_up(SendFailure::Cancelled)
        } else {
            SendStep {
                state: SendState::Chunk { i, remaining },
                sent: None,
                action: SendAction::ReadChunk(wanted(remaining)),
            }
        },
        (SendState::Chunk { i, remaining }, SendEvent::Read(n)) => if n == 0 {
            giving_up(SendFailure::FileShrank)
        } else if n > wanted(remaining) {
            giving_up(SendFailure::Io)
        } else {
            SendStep {
                state: SendState::Sending { i, remaining, n },
                sent: None,
                action: SendAction::SendChunk(n),
            }
        },
        (SendState::Sending { i, remaining, n }, SendEvent::Sent) => if n > remaining || i
            >= lens.len() {
            giving_up(SendFailure::Io)
        } else if n == remaining {
            enter(i + 1, lens.len() as int, Some(n))
        } else {
            SendStep {
                state: SendState::Body { i, remaining: (remaining - n) as u64 },
                sent: Some(n),
                action: SendAction::AskLeave,
            }
        },
        (SendState::Finished, _) => SendStep {
            state: SendState::Finished,
            sent: None,
            action: SendAction::Finish,
        },
        _ => giving_up(SendFailure::Io),
    }
}

fn enter_segment(i: usize, count: usize, sent: Option<u64>) -> (r: SendStep)
    ensures
        r == enter(i as int, count as int, sent),
{
    if i < count {
        SendStep { state: SendState::Segment { i }, sent, action: SendAction::AskLeave }
    } else {
        SendStep { state: SendState::Finished, sent, action: SendAction::Finish }
    }
}

fn give_up(why: SendFailure) -> (r: SendStep)
    ensures
        r == giving_up(why),
{
    SendStep { state: SendState::GaveUp, sent: None, action: SendAction::Fail(why) }
}

/// The first step of a stream.
pub fn start(segs: &Vec<Segment>) -> (r: SendStep)
    ensures
        r == enter(0, segs@.len() as int, None),
{
    enter_segment(0, segs.len(), None)
}

/// Decides what a stream does next. Each segment is announced, and its bytes
/// follow only once the receiver has accepted it; before each header and each
/// read the stream looks whether the transfer was cancelled.
pub fn step(s: SendState, e: SendEvent, segs: &Vec<Segment>) -> (r: SendStep)
    ensures
        r == send_next(s, e, lens(segs@)),
{
    match (s, e) {
        (SendState::Segment { i }, SendEvent::Leave { cancelled }) => {
            if cancelled {
                give_up(SendFailure::Cancelled)
            } else {
                SendStep {
                    state: SendState::Header { i },
                    sent: None,
                    action: SendAction::SendHeader(i),
                }
            }
        },
        (SendState::Header { i }, SendEvent::Announced) => SendStep {
            state: SendState::Answer { i },
            sent: None,
            action: SendAction::ReadAnswer,
        },
        (SendState::Answer { i }, SendEvent::Answered(b)) => {
            if b != ACK {
                give_up(SendFailure::Rejected)
            } else if i >= segs.len() {
                give_up(SendFailure::Io)
            } else if segs[i].len == 0 {
                enter_segment(i + 1, segs.len(), None)
            } else {
                SendStep {
                    state: SendState::File { i },
                    sent: None,
                    action: SendAction::OpenFile(i),
                }
            }
        },
        (SendState::Answer { i }, SendEvent::Failed) => give_up(SendFailure::NoAnswer),
        (SendState::File { i }, SendEvent::Opened) => {
            if i >= segs.len() {
                give_up(SendFailure::Io)
            } else {
                SendStep {
                    state: SendState::Body { i, remaining: segs[i].len },
                    sent: None,
                    action: SendAction::AskLeave,
                }
            }
        },
        (SendState::Body { i, remaining }, SendEvent::Leave { cancelled }) => {
            if cancelled {
                give_up(SendFailure::Cancelled)
            } else {
                let n: u64 = if remaining < CHUNK {
                    remaining
                } else {
                    CHUNK
                };
                SendStep {
                    state: SendState::Chunk { i, remaining },
                    sent: None,
                    action: SendAction::ReadChunk(n),
                }
            }
        },
        (SendState::Chunk { i, remaining }, SendEvent::Read(n)) => {
            if n == 0 {
                give_up(SendFailure::FileShrank)
            } else if n > remaining || n > CHUNK {
                give_up(SendFailure::Io)
            } else {
                SendStep {
                    state: SendState::Sending { i, remaining, n },
                    sent: None,
                    action: SendAction::SendChunk(n),
                }
            }
        },
        (SendState::Sending { i, remaining, n }, SendEvent::Sent) => {
            if n > remaining || i >= segs.len() {
                give_up(SendFailure::Io)
            } else if n == remaining {
                enter_segment(i + 1, segs.len(), Some(n))
            } else {
                SendStep {
                    state: SendState::Body { i, remaining: remaining - n },
                    sent: Some(n),
                    action: SendAction::AskLeave,
                }
            }
        },
        (SendState::Finished, _) => SendStep {
            state: SendState::Finished,
            sent: None,
            action: SendAction::Finish,
        },
        _ => give_up(SendFailure::Io),
    }
}

/// What the user is told when a stream gives up; `io` is what the system said.
pub open spec fn failure_message(why: SendFailure, io: Seq<char>) -> Seq<char> {
    match why {
        SendFailure::Cancelled => "cancelled"@,
        SendFailure::NoAnswer => "no ack: "@ + io,
        SendFailure::Rejected => "receiver rejected token"@,
        SendFailure::FileShrank => "file shrank while sending"@,
        SendFailure::Io => io,
    }
}

/// What the user is told when a stream gives up; `io` is what the system said.
pub fn failure_text(why: SendFailure, io: &str) -> (r: String)
    ensures
        r@ == failure_message(why, io@),
{
    match why {
        SendFailure::Cancelled => "cancelled".to_owned(),
        SendFailure::NoAnswer => {
            let mut s = "no ack: ".to_owned();
            s.append(io);
            s
        },
        SendFailure::Rejected => "receiver rejected token".to_owned(),
        SendFailure::FileShrank => "file shrank while sending".to_owned(),
        SendFailure::Io => io.to_owned(),
    }
}

/// The state after some reads, with leave given for each and each one sent.
pub open spec fn after_reads(s: SendState, reads: Seq<u64>, lens: Seq<u64>) -> SendState
    decreases reads.len(),
{
    if reads.len() == 0 {
        s
    } else {
        let before = after_reads(s, reads.drop_last(), lens);
        let asked = send_next(before, SendEvent::Leave { cancelled: false }, lens).state;
        let read = send_next(asked, SendEvent::Read(reads.last()), lens).state;
        send_next(read, SendEvent::Sent, lens).state
    }
}

/// A segment's bytes are sent in full: while reads bring less than its length
/// the stream goes on reading, and once they have brought all of it the stream
/// goes on to the next segment, or to its end after the last one.
pub proof fn law_segment_sent_in_full(i: usize, lens: Seq<u64>, reads: Seq<u64>)
    requires
        i < lens.len(),
        lens.len() <= usize::MAX,
        lens[i as int] > 0,
        possible_reads(lens[i as int], reads),
    ensures
        sum(reads) <= lens[i as int],
        after_reads(SendState::Body { i, remaining: lens[i as int] }, reads, lens) == (if sum(reads)
            == lens[i as int] {
            enter(i + 1, lens.len() as int, None).state
        } else {
            SendState::Body { i, remaining: (lens[i as int] - sum(reads)) as u64 }
        }),
        reads.len() > 0 ==> {
            let before = after_reads(
                SendState::Body { i, remaining: lens[i as int] },
                reads.drop_last(),
                lens,
            );
            let asked = send_next(before, SendEvent::Leave { cancelled: false }, lens);
            let read = send_next(asked.state, SendEvent::Read(reads.last()), lens);
            &&& asked.action is ReadChunk && reads.last() <= asked.action->ReadChunk_0
            &&& read.action == SendAction::SendChunk(reads.last())
            &&& send_next(read.state, SendEvent::Sent, lens).sent == Some(reads.last())
        },
    decreases reads.len(),
{
    if reads.len() > 0 {
        law_segment_sent_in_full(i, lens, reads.drop_last());
    }
}

/// The state after a segment: it is announced and accepted, and its bytes go out
/// with some reads, if it has any.
pub open spec fn after_segment(s: SendState, reads: Seq<u64>, lens: Seq<u64>) -> SendState {
    let left = send_next(s, SendEvent::Leave { cancelled: false }, lens).state;
    let announced = send_next(left, SendEvent::Announced, lens).state;
    let accepted = send_next(announced, SendEvent::Answered(ACK), lens).state;
    if accepted is File {
        after_reads(send_next(accepted, SendEvent::Opened, lens).state, reads, lens)
    } else {
        accepted
    }
}

/// The state after the first segments of a stream, one group of reads for each.
pub open spec fn after_segments(reads: Seq<Seq<u64>>, lens: Seq<u64>) -> SendState
    decreases reads.len(),
{
    if reads.len() == 0 {
        enter(0, lens.len() as int, None).state
    } else {
        after_segment(after_segments(reads.drop_last(), lens), reads.last(), lens)
    }
}

/// A stream sends its segments in order, each of them in full: after each one
/// it goes on to the next, and after the last one it is finished.
pub proof fn law_stream_sends_all(reads: Seq<Seq<u64>>, lens: Seq<u64>)
    requires
        reads.len() <= lens.len() <= usize::MAX,
        forall|j: int|
            0 <= j < reads.len() ==> possible_reads(lens[j], #[trigger] reads[j]) && sum(reads[j])
                == lens[j],
    ensures
        after_segments(reads, lens) == enter(reads.len() as int, lens.len() as int, None).state,
        reads.len() == lens.len() ==> after_segments(reads, lens) == SendState::Finished,
    decreases reads.len(),
{
    if reads.len() > 0 {
        let init = reads.drop_last();
        let i = init.len() as int;
        assert forall|j: int| 0 <= j < init.len() implies possible_reads(
            lens[j],
            #[trigger] init[j],
        ) && sum(init[j]) == lens[j] by {
            assert(init[j] == reads[j]);
        }
        law_stream_sends_all(init, lens);
        assert(possible_reads(lens[i], reads[i]) && sum(reads[i]) == lens[i]);
        if lens[i] > 0 {
            law_segment_sent_in_full(i as usize, lens, reads[i]);
        }
    }
}

/// Both ends of a connection agree on where a segment ends, however the bytes
/// are cut on the way: once the receiver has got what the sender sent of it in
/// full, the sender goes on to its next segment and the receiver to the next
/// header.
pub proof fn law_ends_agree(
    i: usize,
    lens: Seq<u64>,
    offset: u64,
    sent: Seq<u64>,
    got: Seq<u64>,
)
    requires
        i < lens.len(),
        lens.len() <= usize::MAX,
        lens[i as int] > 0,
        offset + lens[i as int] <= u64::MAX,
        possible_reads(lens[i as int], sent),
        sum(sent) == lens[i as int],
        possible_reads(lens[i as int], got),
        sum(got) == sum(sent),
    ensures
        after_reads(SendState::Body { i, remaining: lens[i as int] }, sent, lens) == enter(
            i + 1,
            lens.len() as int,
            None,
        ).state,
        crate::receive::after_reads(
            RecvState::Chunk { off: offset, remaining: lens[i as int] },
            got,
        ) == RecvState::Length,
{
    law_segment_sent_in_full(i, lens, sent);
    law_segment_stored_in_order(offset, lens[i as int], got);
}

/// Whether a stream is past the accepting answer to segment `i`, and not past
/// the segment.
pub open spec fn accepted(s: SendState, i: usize) -> bool {
    match s {
        SendState::File { i: j } => i == j,
        SendState::Body { i: j, .. } => i == j,
        SendState::Chunk { i: j, .. } => i == j,
        SendState::Sending { i: j, .. } => i == j,
        _ => false,
    }
}

/// No byte of a segment is on its way before the receiver has accepted it: the
/// only way past the answer is the accepting one, the only way to the answer is
/// the segment's header, and bytes are sent past the answer alone.
pub proof fn law_bytes_only_after_answer(s: SendState, e: SendEvent, lens: Seq<u64>, i: usize)
    ensures
        accepted(send_next(s, e, lens).state, i) ==> accepted(s, i) || (s == SendState::Answer { i }
            && e == SendEvent::Answered(ACK)),
        send_next(s, e, lens).state == (SendState::Answer { i }) ==> s == (SendState::Header { i })
            && e == SendEvent::Announced,
        send_next(s, e, lens).state == (SendState::Header { i }) <==> send_next(s, e, lens).action
            == SendAction::SendHeader(i),
        send_next(s, e, lens).action is SendChunk ==> exists|j: usize| #[trigger]
            accepted(s, j) && accepted(send_next(s, e, lens).state, j),
{
    match s {
        SendState::Chunk { i: j, .. } => {
            assert(accepted(s, j));
        },
        _ => {},
    }
}

/// Once the transfer is cancelled, a stream that asks for leave gives up.
pub proof fn law_cancel_stops(s: SendState, lens: Seq<u64>)
    requires
        s is Segment || s is Body,
    ensures
        send_next(s, SendEvent::Leave { cancelled: true }, lens) == giving_up(
            SendFailure::Cancelled,
        ),
{
}

/// A stream holds little at a time, however large the file: it never reads more
/// than [`CHUNK`] bytes of it.
pub proof fn law_reads_are_bounded(s: SendState, e: SendEvent, lens: Seq<u64>)
    ensures
        send_next(s, e, lens).action matches SendAction::ReadChunk(n) ==> n <= CHUNK,
        send_next(s, e, lens).action matches SendAction::SendChunk(n) ==> 0 < n <= CHUNK,
{
}

/// A stream to which anything fails gives up, whatever it is at, unless it has
/// given up or is finished; the reason is the missing answer where one was waited
/// for, and the failure itself elsewhere.
pub proof fn law_failure_gives_up(s: SendState, lens: Seq<u64>)
    requires
        s != SendState::Finished,
    ensures
        send_next(s, SendEvent::Failed, lens).state == SendState::GaveUp,
        send_next(s, SendEvent::Failed, lens).sent is None,
        s is Answer ==> send_next(s, SendEvent::Failed, lens).action == SendAction::Fail(
            SendFailure::NoAnswer,
        ),
        !(s is Answer) ==> send_next(s, SendEvent::Failed, lens).action == SendAction::Fail(
            SendFailure::Io,
        ),
{
}

/// A stream says that it is finished only where it is: after the last byte of its
/// last segment was sent, after its last segment was accepted if that is empty, or
/// at once if it has no segment. It says so in that state and no other, and one
/// that has given up does not come back.
pub proof fn law_finished_means_all_sent(s: SendState, e: SendEvent, lens: Seq<u64>)
    requires
        lens.len() <= usize::MAX,
    ensures
        send_next(s, e, lens).state == SendState::Finished ==> {
            ||| s == SendState::Finished
            ||| (s is Sending && e == SendEvent::Sent && s->Sending_i + 1 == lens.len() && s->n
                == s->Sending_remaining)
            ||| (s is Answer && e == SendEvent::Answered(1u8) && s->Answer_i + 1 == lens.len()
                && lens.last() == 0)
        },
        enter(0, lens.len() as int, None).state == SendState::Finished <==> lens.len() == 0,
        send_next(s, e, lens).action == SendAction::Finish <==> send_next(s, e, lens).state
            == SendState::Finished,
        send_next(s, e, lens).action is Fail <==> send_next(s, e, lens).state == SendState::GaveUp,
        s == SendState::GaveUp ==> send_next(s, e, lens).state == SendState::GaveUp,
        s == SendState::Finished ==> send_next(s, e, lens).state == SendState::Finished,
{
}

/// A stream goes on from each state with what was asked for alone.
pub proof fn law_only_expected_goes_on(s: SendState, e: SendEvent, lens: Seq<u64>)
    requires
        lens.len() <= usize::MAX,
    ensures
        send_next(s, e, lens).state != SendState::GaveUp <==> (match (s, e) {
            (SendState::Segment { .. }, SendEvent::Leave { cancelled }) => !cancelled,
            (SendState::Header { .. }, SendEvent::Announced) => true,
            (SendState::Answer { i }, SendEvent::Answered(b)) => b == 1 && i < lens.len(),
            (SendState::File { i }, SendEvent::Opened) => i < lens.len(),
            (SendState::Body { .. }, SendEvent::Leave { cancelled }) => !cancelled,
            (SendState::Chunk { remaining, .. }, SendEvent::Read(n)) => 0 < n <= remaining && n
                <= 1048576,
            (SendState::Sending { i, remaining, n }, SendEvent::Sent) => n <= remaining && i
                < lens.len(),
            (SendState::Finished, _) => true,
            _ => false,
        }),
        s is Chunk && e == SendEvent::Read(0u64) ==> send_next(s, e, lens) == giving_up(
            SendFailure::FileShrank,
        ),
        s is Answer && e is Answered && e != SendEvent::Answered(1u8) ==> send_next(s, e, lens)
            == giving_up(SendFailure::Rejected),
{
}

/// A stream works on one segment at a time, from the first to the last: it goes on
/// to the next one only when the one at hand is done, and announces, opens and
/// sends the one at hand.
pub proof fn law_one_segment_after_another(s: SendState, e: SendEvent, lens: Seq<u64>, i: usize)
    requires
        lens.len() <= usize::MAX,
    ensures
        send_next(s, e, lens).state == (SendState::Segment { i }) ==> i > 0 && i < lens.len() && {
            ||| (s is Sending && e == SendEvent::Sent && s->Sending_i == i - 1 && s->n
                == s->Sending_remaining)
            ||| (s == (SendState::Answer { i: (i - 1) as usize }) && e == SendEvent::Answered(1u8)
                && lens[i - 1] == 0)
        },
        send_next(s, e, lens).action == SendAction::SendHeader(i) <==> s == (SendState::Segment { i })
            && e == (SendEvent::Leave { cancelled: false }),
        send_next(s, e, lens).action == SendAction::OpenFile(i) <==> s == (SendState::Answer { i }) && e
            == SendEvent::Answered(1u8) && i < lens.len() && lens[i as int] > 0,
        enter(0, lens.len() as int, None).state == (SendState::Segment { i }) ==> i == 0,
        s == (SendState::File { i }) && e == SendEvent::Opened && i < lens.len() ==> send_next(
            s,
            e,
            lens,
        ).state == (SendState::Body { i, remaining: lens[i as int] }),
{
}

/// Bytes are counted once they are sent, as many as were sent, and what is sent is
/// what was just read.
pub proof fn law_counted_when_sent(s: SendState, e: SendEvent, lens: Seq<u64>)
    ensures
        send_next(s, e, lens).sent matches Some(n) ==> s is Sending && e == SendEvent::Sent && n == s->n,
        s is Sending && e == SendEvent::Sent && send_next(s, e, lens).state != SendState::GaveUp
            ==> send_next(s, e, lens).sent == Some(s->n),
        send_next(s, e, lens).action is SendChunk ==> s is Chunk && e == SendEvent::Read(
            send_next(s, e, lens).action->SendChunk_0,
        ),
        s is Sending && e == SendEvent::Sent && s->n < s->Sending_remaining && s->Sending_i < lens.len()
            ==> send_next(s, e, lens).state == (SendState::Body {
            i: s->Sending_i,
            remaining: (s->Sending_remaining - s->n) as u64,
        }),
{
}

/// What a stream waits for is what it is told to do: it asks for leave before each
/// header and each read, and reads what is left of a segment up to 1 MiB.
pub proof fn law_does_what_it_waits_for(s: SendState, e: SendEvent, lens: Seq<u64>)
    requires
        lens.len() <= usize::MAX,
    ensures
        match send_next(s, e, lens).state {
            SendState::Segment { .. } => send_next(s, e, lens).action == SendAction::AskLeave,
            SendState::Header { i } => send_next(s, e, lens).action == SendAction::SendHeader(i),
            SendState::Answer { .. } => send_next(s, e, lens).action == SendAction::ReadAnswer,
            SendState::File { i } => send_next(s, e, lens).action == SendAction::OpenFile(i),
            SendState::Body { .. } => send_next(s, e, lens).action == SendAction::AskLeave,
            SendState::Chunk { remaining, .. } => send_next(s, e, lens).action is ReadChunk
                && send_next(s, e, lens).action->ReadChunk_0 == (if remaining <= 1048576 {
                remaining
            } else {
                1048576
            }),
            SendState::Sending { n, .. } => send_next(s, e, lens).action == SendAction::SendChunk(n),
            SendState::Finished => send_next(s, e, lens).action == SendAction::Finish,
            SendState::GaveUp => send_next(s, e, lens).action is Fail,
        },
        s is Body && e == (SendEvent::Leave { cancelled: false }) ==> send_next(s, e, lens).state == (
        SendState::Chunk { i: s->Body_i, remaining: s->Body_remaining }),
        s is Chunk && e is Read && send_next(s, e, lens).state != SendState::GaveUp ==> send_next(
            s,
            e,
            lens,
        ).state == (SendState::Sending {
            i: s->Chunk_i,
            remaining: s->Chunk_remaining,
            n: e->Read_0,
        }),
        s is Header && e == SendEvent::Announced ==> send_next(s, e, lens).state == (
        SendState::Answer { i: s->Header_i }),
        s is Sending && e == SendEvent::Sent && s->n == s->Sending_remaining && s->Sending_i + 1
            < lens.len() ==> send_next(s, e, lens).state == (SendState::Segment {
            i: (s->Sending_i + 1) as usize,
        }),
        s is Sending && e == SendEvent::Sent && s->n == s->Sending_remaining && s->Sending_i + 1
            == lens.len() ==> send_next(s, e, lens).state == SendState::Finished,
        s is Answer && e == SendEvent::Answered(1u8) && s->Answer_i + 1 < lens.len()
            && lens[s->Answer_i as int] == 0 ==> send_next(s, e, lens).state == (SendState::Segment {
            i: (s->Answer_i + 1) as usize,
        }),
{
}

/// The lengths of a stream's segments are theirs, one for each.
pub proof fn law_lengths_one_for_each(segs: Seq<Segment>, k: int)
    ensures
        lens(segs).len() == segs.len(),
        0 <= k < segs.len() ==> lens(segs)[k] == segs[k].len,
{
}

/// What the user is told where the system has something to say ends in exactly
/// that: alone, or behind words that say that the answer is missing.
pub proof fn law_message_ends_in_system_words(io: Seq<char>)
    ensures
        failure_message(SendFailure::Io, io) == io,
        failure_message(SendFailure::NoAnswer, io).len() == io.len() + 8,
        failure_message(SendFailure::NoAnswer, io).take(8) == "no ack: "@,
        failure_message(SendFailure::NoAnswer, io).skip(8) == io,
        failure_message(SendFailure::Cancelled, io) == "cancelled"@,
        failure_message(SendFailure::Rejected, io) == "receiver rejected token"@,
        failure_message(SendFailure::FileShrank, io) == "file shrank while sending"@,
{
    reveal_strlit("no ack: ");
    let m = failure_message(SendFailure::NoAnswer, io);
    assert(m.take(8) =~= "no ack: "@);
    assert(m.skip(8) =~= io);
}

/// What a look at the progress of a transfer leads to.
#[derive(Clone, Copy)]
pub struct Tick {
    /// Whether the user interface is told.
    pub emit: bool,
    /// Whether this was the last look.
    pub stop: bool,
}

/// What a look at the progress leads to.
pub open spec fn tick(last: u64, sent: u64, total: u64, cancelled: bool) -> Tick {
    Tick { emit: sent != last, stop: sent >= total || cancelled }
}

/// A look tells of every count but the one that was told last, and the looks go on
/// as long as there is something left to send and nobody has cancelled.
pub proof fn law_looks_at_progress(last: u64, sent: u64, total: u64, cancelled: bool)
    ensures
        !tick(sent, sent, total, cancelled).emit,
        last != sent ==> tick(last, sent, total, cancelled).emit,
        tick(last, sent, total, true).stop,
        tick(last, sent, total, false).stop <==> total <= sent,
{
}

/// A look at the progress: `last` is the count that was told last. A new count
/// is told; the looks end once everything is sent or the transfer is
/// cancelled.
pub fn progress_tick(last: u64, sent: u64, total: u64, cancelled: bool) -> (r: Tick)
    ensures
        r.emit == (sent != last),
        r.stop == (sent >= total || cancelled),
        r == tick(last, sent, total, cancelled),
{
    Tick { emit: sent != last, stop: sent >= total || cancelled }
}

/// How a stream ended.
pub enum StreamEnd {
    Done,
    Failed(String),
    Panicked,
}

/// The error of a transfer whose streams ended so: that of the last stream
/// that did not get through.
pub open spec fn transfer_error(ends: Seq<StreamEnd>) -> Option<Seq<char>>
    decreases ends.len(),
{
    if ends.len() == 0 {
        None
    } else {
        match ends.last() {
            StreamEnd::Done => transfer_error(ends.drop_last()),
            StreamEnd::Failed(e) => Some(e@),
            StreamEnd::Panicked => Some("thread panic"@),
        }
    }
}

/// The text of the error so far, if there is one.
pub open spec fn error_text(err: Option<String>) -> Option<Seq<char>> {
    match err {
        Some(e) => Some(e@),
        None => None,
    }
}

/// Takes note of how a stream ended, where `err` is the error of those that
/// ended before it. The result says whether the other streams are to be
/// cancelled.
pub fn note_end(err: &mut Option<String>, end: StreamEnd) -> (cancel: bool)
    ensures
        cancel == (end is Failed),
        error_text(*final(err)) == (match end {
            StreamEnd::Done => error_text(*old(err)),
            StreamEnd::Failed(e) => Some(e@),
            StreamEnd::Panicked => Some("thread panic"@),
        }),
        forall|before: Seq<StreamEnd>|
            error_text(*old(err)) == transfer_error(before) ==> error_text(*final(err))
                == #[trigger] transfer_error(before.push(end)),
{
    proof {
        assert forall|before: Seq<StreamEnd>| (#[trigger] before.push(end)).drop_last() == before by {
            assert(before.push(end).drop_last() =~= before);
        }
    }
    match end {
        StreamEnd::Done => false,
        StreamEnd::Failed(e) => {
            *err = Some(e);
            true
        },
        StreamEnd::Panicked => {
            *err = Some("thread panic".to_owned());
            false
        },
    }
}

/// How a transfer ends, where a stream could not be had for one reason and another
/// gave up for another.
pub open spec fn outcome(failed: Option<Seq<char>>, err: Option<Seq<char>>) -> Result<
    (),
    Seq<char>,
> {
    match (failed, err) {
        (Some(e), _) => Err(e),
        (None, Some(e)) => Err(e),
        (None, None) => Ok(()),
    }
}

/// A transfer succeeds if and only if nothing is wrong with it, and the stream that
/// could not be had is told whatever became of the others.
pub proof fn law_outcome(failed: Option<Seq<char>>, err: Option<Seq<char>>, e: Seq<char>)
    ensures
        outcome(failed, err) is Ok <==> failed is None && err is None,
        outcome(Some(e), err) == Err::<(), Seq<char>>(e),
        outcome(None, Some(e)) == Err::<(), Seq<char>>(e),
{
}

/// How a transfer ends: `failed` says why a stream could not be had, and `err` is
/// the error of those that could. The first goes before the second.
pub fn transfer_result(failed: Option<String>, err: Option<String>) -> (r: Result<(), String>)
    ensures
        match r {
            Ok(_) => failed is None && err is None,
            Err(e) => if failed is Some {
                e@ == failed->0@
            } else {
                err is Some && e@ == err->0@
            },
        },
        outcome(error_text(failed), error_text(err)) == (match r {
            Ok(_) => Ok::<(), Seq<char>>(()),
            Err(e) => Err(e@),
        }),
{
    match failed {
        Some(e) => Err(e),
        None => match err {
            Some(e) => Err(e),
            None => Ok(()),
        },
    }
}

/// A transfer succeeds if and only if every stream got through.
pub proof fn law_success_means_all_done(ends: Seq<StreamEnd>)
    ensures
        transfer_error(ends) is None <==> forall|i: int|
            0 <= i < ends.len() ==> (#[trigger] ends[i]) is Done,
    decreases ends.len(),
{
    if ends.len() > 0 {
        let init = ends.drop_last();
        law_success_means_all_done(init);
        if transfer_error(ends) is None {
            assert forall|i: int| 0 <= i < ends.len() implies (#[trigger] ends[i]) is Done by {
                if i < init.len() {
                    assert(init[i] is Done);
                }
            }
        }
        if forall|i: int| 0 <= i < ends.len() ==> (#[trigger] ends[i]) is Done {
            assert(ends[ends.len() - 1] is Done);
            assert forall|i: int| 0 <= i < init.len() implies (#[trigger] init[i]) is Done by {
                assert(ends[i] is Done);
            }
        }
    }
}

/// The error of a transfer is that of the last stream that did not get through,
/// whatever the streams before it came to.
pub proof fn law_last_failure_is_told(before: Seq<StreamEnd>, end: StreamEnd, after: Seq<StreamEnd>)
    requires
        end !is Done,
        forall|i: int| 0 <= i < after.len() ==> (#[trigger] after[i]) is Done,
    ensures
        transfer_error(before.push(end) + after) == (match end {
            StreamEnd::Failed(e) => Some(e@),
            _ => Some("thread panic"@),
        }),
    decreases after.len(),
{
    let all = before.push(end) + after;
    if after.len() == 0 {
        assert(all =~= before.push(end));
        assert(all.last() == end);
    } else {
        let init = after.drop_last();
        assert forall|i: int| 0 <= i < init.len() implies (#[trigger] init[i]) is Done by {
            assert(init[i] == after[i]);
        }
        law_last_failure_is_told(before, end, init);
        assert(all.drop_last() =~= before.push(end) + init);
        assert(after[after.len() - 1] is Done);
        assert(all.last() == after.last());
    }
}

/// The error so far is seen as what it says.
pub proof fn law_error_as_it_says(e: String)
    ensures
        error_text(Some(e)) == Some(e@),
        error_text(None) is None,
{
}

} // verus!
