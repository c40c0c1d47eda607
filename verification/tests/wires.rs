use aipoint_share::plan::Segment;
use aipoint_share::receive;
use aipoint_share::receive::{RecvAction, RecvEvent, RecvState, RecvStep, CHUNK};
use aipoint_share::send;
use aipoint_share::send::{
    failure_text, note_end, progress_tick, transfer_result, SendAction, SendEvent, SendFailure,
    SendState, StreamEnd,
};
use aipoint_share::wire::{frame, header_len, SegHeader, ACK, NACK};

fn seg(len: u64) -> Segment {
    Segment {
        path: "/src/a".to_string(),
        rel: "root\\x/a \"q\".txt".to_string(),
        offset: 100,
        len,
        size: 100 + len,
    }
}

fn four(b: &[u8]) -> [u8; 4] {
    [b[0], b[1], b[2], b[3]]
}

#[test]
fn lengths_are_checked() {
    assert_eq!(header_len([0, 0, 0, 0]), None);
    assert_eq!(header_len([0, 0, 0, 1]), Some(1));
    assert_eq!(header_len([0, 0, 1, 2]), Some(258));
    assert_eq!(header_len([0, 1, 0, 0]), Some(65536));
    assert_eq!(header_len([0, 1, 0, 1]), None);
    assert_eq!(header_len([1, 0, 0, 0]), None);
}

#[test]
fn a_frame_is_read_back() {
    let body = vec![7u8; 300];
    let f = frame(&body);
    assert_eq!(&f[..4], &[0, 0, 1, 44]);
    assert_eq!(header_len(four(&f)), Some(300));
    assert_eq!(&f[4..], &body[..]);
    assert_eq!(header_len(four(&frame(&vec![]))), None);
    assert_eq!(header_len(four(&frame(&vec![1u8; 65537]))), None);
}

#[test]
fn a_header_is_json() {
    let h = SegHeader::of_segment("tok", &seg(5));
    assert_eq!(h.rel, "x/a \"q\".txt");
    let f = h.to_frame();
    let n = header_len(four(&f)).unwrap();
    assert_eq!(n, f.len() - 4);
    let v: serde_json::Value = serde_json::from_slice(&f[4..]).unwrap();
    assert_eq!(v["token"], "tok");
    assert_eq!(v["rel"], "x/a \"q\".txt");
    assert_eq!(v["offset"].as_u64(), Some(100));
    assert_eq!(v["len"].as_u64(), Some(5));
    assert_eq!(v["size"].as_u64(), Some(105));
    assert_eq!(v.as_object().unwrap().len(), 5);
}

#[test]
fn a_header_that_is_too_long_is_not_read() {
    let long = "x".repeat(65536);
    let f = SegHeader::of_segment(&long, &seg(5)).to_frame();
    assert_eq!(header_len(four(&f)), None);
}

fn drive(events: &[RecvEvent]) -> RecvStep {
    let mut s = receive::start();
    for e in events {
        s = receive::step(s.state, *e);
    }
    s
}

#[test]
fn a_segment_is_received_in_chunks() {
    let len = 2 * CHUNK + 5;
    let s = receive::start();
    assert!(matches!(s.action, RecvAction::ReadLength));
    let s = receive::step(s.state, RecvEvent::Length([0, 0, 0, 9]));
    assert!(matches!(s.action, RecvAction::ReadHeader(9)));
    let s = receive::step(s.state, RecvEvent::Header { offset: 100, len, known: true });
    assert!(matches!(s.action, RecvAction::OpenFile));
    let s = receive::step(s.state, RecvEvent::Opened);
    assert!(matches!(s.action, RecvAction::Accept));
    let mut s = receive::step(s.state, RecvEvent::Answered);
    let mut at = 100;
    let mut got = 0;
    while let RecvAction::ReadChunk(n) = s.action {
        assert!(n > 0 && n <= CHUNK);
        let take = if n > 10 { n - 3 } else { n };
        let w = receive::step(s.state, RecvEvent::Read(take));
        match w.action {
            RecvAction::StoreChunk { off, n } => {
                assert_eq!((off, n), (at, take));
            }
            _ => panic!("a write was expected"),
        }
        s = receive::step(w.state, RecvEvent::Stored);
        assert_eq!(s.got, Some(take));
        at += take;
        got += take;
    }
    assert_eq!(got, len);
    assert!(matches!(s.action, RecvAction::ReadLength));
    assert!(matches!(s.state, RecvState::Length));
}

#[test]
fn an_empty_segment_counts_nothing() {
    let s = drive(&[
        RecvEvent::Length([0, 0, 0, 9]),
        RecvEvent::Header { offset: 0, len: 0, known: true },
        RecvEvent::Opened,
        RecvEvent::Answered,
    ]);
    assert_eq!(s.got, Some(0));
    assert!(matches!(s.action, RecvAction::ReadLength));
}

#[test]
fn an_unknown_token_is_refused() {
    let s = drive(&[
        RecvEvent::Length([0, 0, 0, 9]),
        RecvEvent::Header { offset: 0, len: 7, known: false },
    ]);
    assert!(matches!(s.action, RecvAction::Refuse));
    assert!(matches!(s.state, RecvState::Closed));
    assert_eq!((ACK, NACK), (1, 0));
}

#[test]
fn whatever_fails_closes_the_connection() {
    let all = [
        RecvEvent::Length([0, 0, 0, 9]),
        RecvEvent::Header { offset: 0, len: 7, known: true },
        RecvEvent::Opened,
        RecvEvent::Answered,
        RecvEvent::Read(3),
    ];
    for k in 0..=all.len() {
        let s = receive::step(drive(&all[..k]).state, RecvEvent::Failed);
        assert!(matches!(s.action, RecvAction::Close));
        let s = receive::step(s.state, RecvEvent::Opened);
        assert!(matches!(s.action, RecvAction::Close));
    }
    assert!(matches!(drive(&[RecvEvent::Length([0, 0, 0, 0])]).action, RecvAction::Close));
    let open = drive(&all[..4]).state;
    assert!(matches!(receive::step(open, RecvEvent::Read(0)).action, RecvAction::Close));
    assert!(matches!(receive::step(open, RecvEvent::Read(8)).action, RecvAction::Close));
}

#[test]
fn an_offset_beyond_64_bits_closes_the_connection() {
    let s = RecvState::Store { off: u64::MAX - 1, remaining: 5, n: 2 };
    assert!(matches!(receive::step(s, RecvEvent::Stored).action, RecvAction::Close));
}

#[test]
fn a_stream_sends_all_its_segments() {
    let segs = vec![seg(0), seg(CHUNK + 2)];
    let go = SendEvent::Leave { cancelled: false };
    let s = send::start(&segs);
    assert!(matches!(s.action, SendAction::AskLeave));
    let s = send::step(s.state, go, &segs);
    assert!(matches!(s.action, SendAction::SendHeader(0)));
    let s = send::step(s.state, SendEvent::Announced, &segs);
    assert!(matches!(s.action, SendAction::ReadAnswer));
    let s = send::step(s.state, SendEvent::Answered(ACK), &segs);
    assert!(matches!(s.state, SendState::Segment { i: 1 }));
    let s = send::step(s.state, go, &segs);
    let s = send::step(s.state, SendEvent::Announced, &segs);
    let s = send::step(s.state, SendEvent::Answered(ACK), &segs);
    assert!(matches!(s.action, SendAction::OpenFile(1)));
    let mut s = send::step(s.state, SendEvent::Opened, &segs);
    let mut sent = 0;
    while let SendAction::AskLeave = s.action {
        let r = send::step(s.state, go, &segs);
        let n = match r.action {
            SendAction::ReadChunk(n) => n,
            _ => panic!("a read was expected"),
        };
        let c = send::step(r.state, SendEvent::Read(n), &segs);
        assert!(matches!(c.action, SendAction::SendChunk(m) if m == n));
        s = send::step(c.state, SendEvent::Sent, &segs);
        assert_eq!(s.sent, Some(n));
        sent += n;
    }
    assert_eq!(sent, CHUNK + 2);
    assert!(matches!(s.action, SendAction::Finish));
    assert!(matches!(send::start(&vec![]).action, SendAction::Finish));
}

#[test]
fn a_stream_gives_up_for_a_reason() {
    let segs = vec![seg(10)];
    let why = |s: SendState, e: SendEvent| match send::step(s, e, &segs).action {
        SendAction::Fail(f) => failure_text(f, "oops"),
        _ => String::new(),
    };
    let cancel = SendEvent::Leave { cancelled: true };
    assert_eq!(why(SendState::Segment { i: 0 }, cancel), "cancelled");
    assert_eq!(why(SendState::Body { i: 0, remaining: 4 }, cancel), "cancelled");
    assert_eq!(why(SendState::Answer { i: 0 }, SendEvent::Answered(NACK)), "receiver rejected token");
    assert_eq!(why(SendState::Answer { i: 0 }, SendEvent::Failed), "no ack: oops");
    assert_eq!(
        why(SendState::Chunk { i: 0, remaining: 4 }, SendEvent::Read(0)),
        "file shrank while sending"
    );
    assert_eq!(why(SendState::Header { i: 0 }, SendEvent::Failed), "oops");
    assert_eq!(why(SendState::File { i: 0 }, SendEvent::Failed), "oops");
    assert_eq!(failure_text(SendFailure::Io, ""), "");
}

#[test]
fn progress_is_told_when_it_changes() {
    let t = progress_tick(0, 0, 10, false);
    assert_eq!((t.emit, t.stop), (false, false));
    let t = progress_tick(0, 4, 10, false);
    assert_eq!((t.emit, t.stop), (true, false));
    let t = progress_tick(4, 10, 10, false);
    assert_eq!((t.emit, t.stop), (true, true));
    let t = progress_tick(4, 4, 10, true);
    assert_eq!((t.emit, t.stop), (false, true));
}

#[test]
fn the_last_error_of_a_transfer_counts() {
    let mut err = None;
    assert!(!note_end(&mut err, StreamEnd::Done));
    assert_eq!(err, None);
    assert!(note_end(&mut err, StreamEnd::Failed("one".to_string())));
    assert!(!note_end(&mut err, StreamEnd::Done));
    assert_eq!(err, Some("one".to_string()));
    assert!(!note_end(&mut err, StreamEnd::Panicked));
    assert_eq!(err, Some("thread panic".to_string()));
}

#[test]
fn a_stream_that_cannot_be_had_goes_before_the_others() {
    let text = |t: &str| Some(t.to_string());
    assert_eq!(transfer_result(text("a"), text("b")), Err("a".to_string()));
    assert_eq!(transfer_result(text("a"), None), Err("a".to_string()));
    assert_eq!(transfer_result(None, text("b")), Err("b".to_string()));
    assert_eq!(transfer_result(None, None), Ok(()));
}

#[test]
fn both_ends_move_a_file_together() {
    let size = 3 * CHUNK + 17;
    let source: Vec<u8> = (0..size).map(|k| (k % 251) as u8).collect();
    let cut = |offset: u64, len: u64| Segment {
        path: "/src/a".to_string(),
        rel: "root/a".to_string(),
        offset,
        len,
        size,
    };
    let segs = vec![cut(CHUNK + 3, 2 * CHUNK + 14), cut(0, CHUNK + 3), cut(size, 0)];
    let mut target = vec![0u8; size as usize];
    let mut counted = 0;
    let mut out = send::start(&segs);
    let mut back = receive::start();
    let mut at = 0;
    loop {
        let event = match out.action {
            SendAction::AskLeave => SendEvent::Leave { cancelled: false },
            SendAction::SendHeader(i) => {
                let f = SegHeader::of_segment("t", &segs[i]).to_frame();
                back = receive::step(back.state, RecvEvent::Length(four(&f)));
                assert!(matches!(back.action, RecvAction::ReadHeader(n) if n == f.len() - 4));
                let v: serde_json::Value = serde_json::from_slice(&f[4..]).unwrap();
                let offset = v["offset"].as_u64().unwrap();
                let len = v["len"].as_u64().unwrap();
                back = receive::step(back.state, RecvEvent::Header { offset, len, known: true });
                assert!(matches!(back.action, RecvAction::OpenFile));
                back = receive::step(back.state, RecvEvent::Opened);
                SendEvent::Announced
            }
            SendAction::ReadAnswer => {
                assert!(matches!(back.action, RecvAction::Accept));
                back = receive::step(back.state, RecvEvent::Answered);
                SendEvent::Answered(ACK)
            }
            SendAction::OpenFile(i) => {
                at = segs[i].offset;
                SendEvent::Opened
            }
            SendAction::ReadChunk(n) => SendEvent::Read(n),
            SendAction::SendChunk(n) => {
                let bytes = &source[at as usize..(at + n) as usize];
                at += n;
                let mut from = 0;
                while from < bytes.len() {
                    let want = match back.action {
                        RecvAction::ReadChunk(w) => w as usize,
                        _ => panic!("a read was expected"),
                    };
                    let take = want.min(bytes.len() - from).min(100_000);
                    back = receive::step(back.state, RecvEvent::Read(take as u64));
                    match back.action {
                        RecvAction::StoreChunk { off, n } => {
                            target[off as usize..(off + n) as usize]
                                .copy_from_slice(&bytes[from..from + take]);
                        }
                        _ => panic!("a write was expected"),
                    }
                    back = receive::step(back.state, RecvEvent::Stored);
                    counted += back.got.unwrap();
                    from += take;
                }
                SendEvent::Sent
            }
            SendAction::Finish => break,
            SendAction::Fail(_) => panic!("the stream gave up"),
        };
        out = send::step(out.state, event, &segs);
    }
    assert!(matches!(back.action, RecvAction::ReadLength));
    assert_eq!(counted, size);
    assert_eq!(target, source);
}
