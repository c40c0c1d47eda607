use aipoint_share::path::strip_root;
use aipoint_share::plan::{plan_transfer, Segment, SendEntry, MIN_SEG};
use aipoint_share::receive;
use aipoint_share::receive::{RecvAction, RecvEvent, RecvStep};
use aipoint_share::send;
use aipoint_share::send::{SendAction, SendEvent, SendStep};
use aipoint_share::session::{Entry, FileTarget, Session};
use aipoint_share::settings::Settings;
use aipoint_share::state::AppState;
use aipoint_share::wire::ACK;
use std::collections::HashMap;

/// One stream with both of its ends.
struct Stream {
    segs: Vec<Segment>,
    out: SendStep,
    back: RecvStep,
    rel: String,
    at: u64,
}

/// The receiver's side: a session, its disk, and how often it was completed.
struct Target {
    session: Session<String>,
    disk: HashMap<String, Vec<u8>>,
    completed: usize,
}

impl Target {
    fn path(&mut self, rel: &str, size: u64) -> String {
        match self.session.file_for(rel, size).unwrap() {
            FileTarget::Open(f) => f,
            FileTarget::Create { path, set_len } => {
                let name = path.parts().join("/");
                self.disk.insert(name.clone(), vec![0; set_len.unwrap_or(0) as usize]);
                self.session.add_file(rel, name.clone());
                name
            }
        }
    }

    fn count(&mut self, got: Option<u64>) {
        if let Some(n) = got {
            if self.session.add_got(n, 0).finished {
                self.completed += 1;
            }
        }
    }
}

impl Stream {
    fn new(segs: Vec<Segment>) -> Self {
        let out = send::start(&segs);
        Stream { segs, out, back: receive::start(), rel: String::new(), at: 0 }
    }

    /// Does what the sender does next. The result says whether there is more.
    fn advance(&mut self, source: &HashMap<String, Vec<u8>>, t: &mut Target, most: u64) -> bool {
        let event = match self.out.action {
            SendAction::AskLeave => SendEvent::Leave { cancelled: false },
            SendAction::SendHeader(i) => {
                let seg = &self.segs[i];
                self.rel = strip_root(&seg.rel);
                self.back = receive::step(self.back.state, RecvEvent::Length([0, 0, 0, 80]));
                let header = RecvEvent::Header { offset: seg.offset, len: seg.len, known: true };
                self.back = receive::step(self.back.state, header);
                assert!(matches!(self.back.action, RecvAction::OpenFile));
                t.path(&self.rel, seg.size);
                self.back = receive::step(self.back.state, RecvEvent::Opened);
                SendEvent::Announced
            }
            SendAction::ReadAnswer => {
                assert!(matches!(self.back.action, RecvAction::Accept));
                self.back = receive::step(self.back.state, RecvEvent::Answered);
                t.count(self.back.got);
                SendEvent::Answered(ACK)
            }
            SendAction::OpenFile(i) => {
                self.at = self.segs[i].offset;
                SendEvent::Opened
            }
            SendAction::ReadChunk(n) => SendEvent::Read(n.min(most)),
            SendAction::SendChunk(n) => {
                let mut left = n;
                while left > 0 {
                    let want = match self.back.action {
                        RecvAction::ReadChunk(w) => w,
                        _ => panic!("a read was expected"),
                    };
                    let take = want.min(left).min(333_333);
                    self.back = receive::step(self.back.state, RecvEvent::Read(take));
                    let (off, n) = match self.back.action {
                        RecvAction::StoreChunk { off, n } => (off as usize, n as usize),
                        _ => panic!("a write was expected"),
                    };
                    let i = match self.out.state {
                        send::SendState::Sending { i, .. } => i,
                        _ => panic!("bytes were expected to be on their way"),
                    };
                    let bytes = &source[&self.segs[i].path][self.at as usize..self.at as usize + n];
                    let name = t.path(&self.rel, self.segs[i].size);
                    t.disk.get_mut(&name).unwrap()[off..off + n].copy_from_slice(bytes);
                    self.back = receive::step(self.back.state, RecvEvent::Stored);
                    t.count(self.back.got);
                    self.at += take;
                    left -= take;
                }
                SendEvent::Sent
            }
            SendAction::Finish => {
                assert!(matches!(self.back.action, RecvAction::ReadLength));
                return false;
            }
            SendAction::Fail(_) => panic!("the stream gave up"),
        };
        self.out = send::step(self.out.state, event, &self.segs);
        true
    }
}

#[test]
fn a_transfer_arrives_byte_for_byte() {
    let sizes = [("big.bin", 3 * MIN_SEG + 5), ("sub/small", 3), ("sub/empty", 0), ("mid", 70_001)];
    let mut source = HashMap::new();
    let mut files = vec![];
    for (k, (name, size)) in sizes.iter().enumerate() {
        let path = format!("/src/{name}");
        let bytes: Vec<u8> = (0..*size).map(|b| (b.wrapping_mul(7) + k as u64) as u8).collect();
        source.insert(path.clone(), bytes);
        files.push(SendEntry { path, rel: format!("root/{name}"), size: *size });
    }
    let plan = plan_transfer(&files, Some(3)).unwrap();
    let offered: Vec<Entry> =
        files.iter().map(|f| Entry { rel: f.rel.clone(), size: f.size }).collect();
    let settings = Settings::first_run(Some("/dl".to_string()), None, '/');
    let mut state: AppState<u32, u32> = AppState::new(settings, 0);
    let session = state.recv_session(&offered, plan.total, Some("root"), |_| false).unwrap();
    let mut target = Target { session, disk: HashMap::new(), completed: 0 };
    target.disk.insert("other".to_string(), vec![9]);
    let mut streams: Vec<Stream> = plan.streams.into_iter().map(Stream::new).collect();
    assert_eq!(streams.len(), 3);
    let mut busy = true;
    while busy {
        busy = false;
        for (k, s) in streams.iter_mut().enumerate() {
            for _ in 0..=k {
                busy = s.advance(&source, &mut target, 900_000 - k as u64) || busy;
            }
        }
    }
    assert_eq!(target.disk.len(), 5);
    assert_eq!(target.disk["other"], vec![9]);
    for f in &files {
        assert!(target.disk[&f.rel] == source[&f.path]);
    }
    assert_eq!(target.session.got(), plan.total);
    assert_eq!(target.completed, 1);
}
