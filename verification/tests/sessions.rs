use aipoint_share::path::RelPath;
use aipoint_share::session::{
    files_to_make, write_request, Entry, FileTarget, Place, Session,
};
use aipoint_share::settings::Settings;
use aipoint_share::state::AppState;
use aipoint_share::token::{fresh_token, token_of, TOKEN_LEN};

fn entries(list: &[&str]) -> Vec<Entry> {
    list.iter().map(|r| Entry { rel: r.to_string(), size: 1 }).collect()
}

fn names(p: &RelPath) -> Vec<String> {
    p.parts().clone()
}

fn place(list: &[&str], root: Option<&str>, taken: &[&str]) -> Result<(bool, Vec<String>), String> {
    Place::choose_for(&entries(list), root, |q| taken.contains(&q.parts().join("/").as_str()))
        .map(|p| (p.is_file(), names(p.path())))
}

fn s(list: &[&str]) -> Vec<String> {
    list.iter().map(|x| x.to_string()).collect()
}

fn state() -> AppState<u32, u32> {
    AppState::new(Settings::first_run(Some("/dl".to_string()), None, '/'), 4711)
}

fn session(list: &[&str], root: Option<&str>, total: u64) -> Session<u32> {
    state().recv_session(&entries(list), total, root, |_| false).unwrap()
}

#[test]
fn a_single_file_goes_under_its_last_name() {
    assert_eq!(place(&["x/y/a.txt"], None, &[]), Ok((true, s(&["a.txt"]))));
    assert_eq!(place(&["a.txt"], None, &["a.txt"]), Ok((true, s(&["a (1).txt"]))));
    assert_eq!(place(&["a/..."], None, &[]), Ok((true, s(&["a"]))));
}

#[test]
fn a_folder_goes_under_its_root() {
    assert_eq!(place(&["r/a", "r/b"], Some("r"), &["r"]), Ok((false, s(&["r (1)"]))));
    assert_eq!(place(&["r/a"], Some("r"), &[]), Ok((false, s(&["r"]))));
    assert_eq!(place(&["a", "b"], None, &[]), Ok((false, s(&["folder"]))));
    assert_eq!(place(&[], None, &["folder"]), Ok((false, s(&["folder (1)"]))));
    assert_eq!(place(&["a"], Some("p/q"), &["p/q"]), Ok((false, s(&["p", "q (1)"]))));
}

#[test]
fn a_bad_place_is_refused() {
    assert_eq!(place(&["../a"], None, &[]), Err("bad path".to_string()));
    assert_eq!(place(&[""], None, &[]), Err("empty path".to_string()));
    assert_eq!(place(&["a"], Some(".."), &[]), Err("bad path".to_string()));
    assert_eq!(place(&["a"], Some(""), &[]), Err("empty path".to_string()));
}

#[test]
fn files_of_a_folder_lie_below_it() {
    let ses = session(&["r/a", "r/b"], Some("r"), 10);
    match ses.file_for("x\\y.txt", 5) {
        Ok(FileTarget::Create { path, set_len }) => {
            assert_eq!(names(&path), s(&["r", "x", "y.txt"]));
            assert_eq!(set_len, Some(5));
        }
        _ => panic!("a file to make was expected"),
    }
    assert!(matches!(ses.file_for("../y", 5), Err(e) if e == "bad path"));
    assert!(matches!(ses.file_for(".", 5), Err(e) if e == "empty path"));
}

#[test]
fn a_single_file_has_one_path() {
    let ses = session(&["d/a.txt"], None, 10);
    match ses.file_for("../whatever", 0) {
        Ok(FileTarget::Create { path, set_len }) => {
            assert_eq!(names(&path), s(&["a.txt"]));
            assert_eq!(set_len, None);
        }
        _ => panic!("a file to make was expected"),
    }
}

#[test]
fn an_open_file_is_used_again() {
    let mut ses = session(&["r/a", "r/b"], Some("r"), 10);
    assert_eq!(ses.write_key(), "file");
    ses.add_file("b", 7);
    ses.add_file("a", 8);
    assert!(matches!(ses.file_for("b", 5), Ok(FileTarget::Open(7))));
    assert!(matches!(ses.file_for("a", 5), Ok(FileTarget::Open(8))));
    assert!(matches!(ses.file_for("c", 5), Ok(FileTarget::Create { .. })));
    assert_eq!(ses.write_key(), "b");
    let open: Vec<&str> = ses.opened().iter().map(|e| e.0.as_str()).collect();
    assert_eq!(open, vec!["b", "a"]);
}

#[test]
fn a_session_finishes_once() {
    let mut ses = session(&["a"], None, 10);
    let g = ses.add_got(4, 0);
    assert_eq!((g.got, g.emit, g.finished), (4, false, false));
    let g = ses.add_got(1, 99);
    assert_eq!((g.got, g.emit, g.finished), (5, false, false));
    let g = ses.add_got(1, 100);
    assert_eq!((g.got, g.emit, g.finished), (6, true, false));
    let g = ses.add_got(4, 0);
    assert_eq!((g.got, g.emit, g.finished), (10, true, true));
    let g = ses.add_got(3, 0);
    assert_eq!((g.got, g.emit, g.finished), (13, true, false));
    assert_eq!(ses.got(), 13);
    assert_eq!(ses.total(), 10);
}

#[test]
fn an_empty_transfer_finishes_with_its_first_count() {
    let mut ses = session(&["a"], None, 0);
    assert!(ses.add_got(0, 0).finished);
    assert!(!ses.add_got(0, 0).finished);
}

#[test]
fn empty_files_are_made_right_away() {
    let list = entries(&["r/a", "r\\x/b"]);
    assert_eq!(files_to_make(&list, 0, true), Some(s(&["a", "x/b"])));
    assert_eq!(files_to_make(&list, 0, false), Some(s(&["r/a", "r\\x/b"])));
    assert_eq!(files_to_make(&vec![], 0, true), Some(vec![]));
    assert_eq!(files_to_make(&list, 1, true), None);
}

#[test]
fn write_requests_are_read() {
    assert_eq!(write_request(Some("3"), Some("+17"), true), Ok((3, 17)));
    assert_eq!(write_request(None, None, false), Err("sid".to_string()));
    assert_eq!(write_request(Some("x"), Some("1"), true), Err("sid".to_string()));
    assert_eq!(write_request(Some("1"), None, false), Err("off".to_string()));
    assert_eq!(write_request(Some("1"), Some("-1"), true), Err("off".to_string()));
    assert_eq!(write_request(Some("1"), Some("1"), false), Err("raw body expected".to_string()));
    let max = u64::MAX.to_string();
    assert_eq!(write_request(Some(&max), Some("0"), true), Ok((u64::MAX, 0)));
    assert_eq!(
        write_request(Some("18446744073709551616"), Some("0"), true),
        Err("sid".to_string())
    );
}

#[test]
fn sessions_are_numbered_from_one() {
    let mut st = state();
    let a: Session<u32> = st.recv_session(&entries(&["a"]), 1, None, |_| false).unwrap();
    assert_eq!((a.sid(), a.dir()), (1, "/dl/Dukto"));
    assert!(st.recv_session::<u32, _>(&entries(&[".."]), 1, None, |_| false).is_err());
    let b: Session<u32> = st.recv_session(&entries(&["b"]), 1, None, |_| false).unwrap();
    assert_eq!(b.sid(), 3);
    assert_ne!(a.token(), b.token());
}

#[test]
fn a_given_token_is_kept() {
    let mut st = state();
    let a: Session<u32> =
        st.prepare_session(&entries(&["a"]), 1, None, "tok".to_string(), |_| false).unwrap();
    assert_eq!(a.token(), "tok");
    assert_eq!(names(a.place().path()), s(&["a"]));
}

#[test]
fn tokens_open_sessions_until_they_are_closed() {
    let mut st = state();
    assert!(st.session_for_token("t1").is_none());
    assert!(st.can_number());
    let a = st.next_sid();
    st.register(a, "t1", 10);
    let b = st.next_sid();
    st.register(b, "t2", 20);
    assert_eq!(st.session_for_token("t1"), Some(&10));
    assert_eq!(st.session_for_token("t2"), Some(&20));
    assert_eq!(st.session(b), Some(&20));
    assert_eq!(st.recv_close(a), Some(10));
    assert!(st.session_for_token("t1").is_none());
    assert!(st.session(a).is_none());
    assert_eq!(st.session_for_token("t2"), Some(&20));
    assert_eq!(st.recv_close(a), None);
}

#[test]
fn each_live_session_keeps_its_token() {
    let mut st = state();
    for k in 1..=5u64 {
        let sid = st.next_sid();
        st.register(sid, &format!("t{k}"), k as u32);
    }
    st.recv_close(2);
    st.recv_close(4);
    for k in [1u64, 3, 5] {
        assert_eq!(st.session_for_token(&format!("t{k}")), st.session(k));
        assert_eq!(st.session(k), Some(&(k as u32)));
    }
}

#[test]
fn transfers_are_cancelled_by_key() {
    let mut st = state();
    st.begin_send("k", 1);
    assert_eq!(st.switch_for("k"), Some(&1));
    assert_eq!(st.switch_for("other"), None);
    st.begin_send("k", 2);
    assert_eq!(st.switch_for("k"), Some(&2));
    st.end_send("k");
    assert_eq!(st.switch_for("k"), None);
    assert_eq!(st.tcp_port(), 4711);
}

#[test]
fn tokens_are_made_of_digits_and_letters() {
    assert_eq!(token_of(&vec![0, 9, 10, 35]), "09az");
    let t = fresh_token();
    assert_eq!(t.len(), TOKEN_LEN);
    assert!(t.chars().all(|c| c.is_ascii_digit() || c.is_ascii_lowercase()));
    let more: Vec<String> = (0..20).map(|_| fresh_token()).collect();
    assert!(more.iter().any(|m| *m != t));
    assert!(more.iter().flat_map(|m| m.chars()).any(|c| c.is_ascii_lowercase()));
}
