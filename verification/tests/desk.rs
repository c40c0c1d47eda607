use aipoint_share::blocks::{fill, start_fill, start_write, write_on, FillStep, WriteStep};
use aipoint_share::join::join_name;
use aipoint_share::listing::{list_dir, stat_path, walk, DirItem, ItemKind};
use aipoint_share::net::{lan_ips, reachable_ips, socket_addr, LanAddr};
use aipoint_share::path::strip_root;
use aipoint_share::session::{Entry, FileTarget, Session};
use aipoint_share::state::AppState;
use aipoint_share::number::{parse_u64, push_decimal};
use aipoint_share::settings::{
    menu_action, setting_change, MenuAction, SettingChange, SettingValue, Settings,
};

fn first() -> Settings {
    Settings::first_run(None, None, '/')
}

#[test]
fn first_settings() {
    let s = Settings::first_run(Some("/home/u/Downloads".to_string()), None, '/');
    assert_eq!(s.download_dir, "/home/u/Downloads/Dukto");
    assert_eq!(s.nick, "");
    assert!(!s.autostart && s.close_to_tray && !s.start_minimized);
    let s = Settings::first_run(None, Some("C:\\Users\\u\\".to_string()), '\\');
    assert_eq!(s.download_dir, "C:\\Users\\u\\Dukto");
    let s = Settings::first_run(None, Some("C:\\Users\\u".to_string()), '\\');
    assert_eq!(s.download_dir, "C:\\Users\\u\\Dukto");
    let s = Settings::first_run(Some("C:".to_string()), None, '\\');
    assert_eq!(s.download_dir, "C:Dukto");
    let s = Settings::first_run(Some("C:".to_string()), None, '/');
    assert_eq!(s.download_dir, "C:/Dukto");
    let s = Settings::first_run(Some("C:\\".to_string()), None, '\\');
    assert_eq!(s.download_dir, "C:\\Dukto");
    assert_eq!(first().download_dir, "./Dukto");
    assert_eq!(Settings::first_run(Some(String::new()), None, '/').download_dir, "Dukto");
}

#[test]
fn verbatim_directories_are_joined_part_by_part() {
    let join = |dir: &str| join_name(dir, '\\', "Dukto");
    assert_eq!(join(r"\\?\C:\a/"), r"\\?\C:\a/\Dukto");
    assert_eq!(join(r"\\?\C:\a"), r"\\?\C:\a\Dukto");
    assert_eq!(join(r"\\?\C:\a\"), r"\\?\C:\a\Dukto");
    assert_eq!(join(r"\\?\C:\\a\\\b\\"), r"\\?\C:\a\b\Dukto");
    assert_eq!(join(r"\\?\C:"), r"\\?\C:\Dukto");
    assert_eq!(join(r"\\?\C:\"), r"\\?\C:\Dukto");
    assert_eq!(join(r"\\?\C:/a"), r"\\?\C:\a\Dukto");
    assert_eq!(join(r"\\?\C:a\\b"), r"\\?\C:a\b\Dukto");
    assert_eq!(join(r"\\?\UNC\server\share\\x"), r"\\?\UNC\server\share\x\Dukto");
    assert_eq!(join(r"\\?\UNC\server"), r"\\?\UNC\server\Dukto");
    assert_eq!(join(r"\\?\UNC\server\\x"), r"\\?\UNC\server\x\Dukto");
    assert_eq!(join(r"\\?\UNC\\share\\x"), r"\\?\UNC\\share\x\Dukto");
    assert_eq!(join(r"\\?\Volume{1}\.\x"), r"\\?\Volume{1}\.\x\Dukto");
    assert_eq!(join(r"\\?\"), r"\\?\\Dukto");
    assert_eq!(join(r"//?/C:\\a"), r"//?/C:\\a\Dukto");
    assert_eq!(join(r"\\server\share\\x"), r"\\server\share\\x\Dukto");
    assert_eq!(join_name(r"\\?\C:\\a", '/', "Dukto"), r"\\?\C:\\a/Dukto");
}

#[test]
fn default_settings_follow_the_system() {
    let dir = dirs::download_dir().or_else(dirs::home_dir).unwrap_or_else(|| ".".into());
    let s = Settings::default();
    assert_eq!(s.download_dir, dir.join("Dukto").to_string_lossy());
    assert!(!s.autostart && s.close_to_tray && !s.start_minimized && s.nick.is_empty());
}

#[test]
fn settings_are_set_one_by_one() {
    let text = |t: &str| SettingValue::Text(t.to_string());
    let mut s = first();
    s.apply(setting_change("nick", &text("0123456789012345678901234567890")).unwrap());
    assert_eq!(s.nick, "012345678901234567890123");
    s.apply(setting_change("nick", &text("\u{fc}\u{fc}")).unwrap());
    assert_eq!(s.nick, "\u{fc}\u{fc}");
    s.apply(setting_change("nick", &SettingValue::Flag(true)).unwrap());
    assert_eq!(s.nick, "");
    s.apply(setting_change("download_dir", &text("/x")).unwrap());
    assert_eq!(s.download_dir, "/x");
    s.apply(setting_change("close_to_tray", &SettingValue::Flag(false)).unwrap());
    assert!(!s.close_to_tray);
    s.apply(setting_change("close_to_tray", &SettingValue::Other).unwrap());
    assert!(s.close_to_tray);
    s.apply(setting_change("start_minimized", &SettingValue::Flag(true)).unwrap());
    assert!(s.start_minimized);
    s.apply(setting_change("start_minimized", &text("true")).unwrap());
    assert!(!s.start_minimized);
    assert!(matches!(
        setting_change("autostart", &SettingValue::Flag(true)),
        Ok(SettingChange::Autostart(true))
    ));
    s.apply(SettingChange::Autostart(true));
    assert!(s.autostart);
    assert!(matches!(setting_change("Nick", &text("x")), Err(e) if e == "unknown setting"));
}

#[test]
fn settings_are_reported() {
    let r = first().report(Some(true), "1.0".to_string(), 7, vec!["a".to_string()], "x".to_string());
    assert!(r.autostart);
    assert_eq!((r.version.as_str(), r.port, r.os.as_str()), ("1.0", 7, "x"));
    let r = first().report(None, String::new(), 0, vec![], String::new());
    assert!(!r.autostart && r.ips.is_empty());
    assert_eq!(r.download_dir, "./Dukto");
}

#[test]
fn the_window_starts_hidden_on_request() {
    let mut s = first();
    let args = |v: &[&str]| v.iter().map(|x| x.to_string()).collect::<Vec<String>>();
    assert!(!s.starts_hidden(&args(&["app"])));
    assert!(s.starts_hidden(&args(&["app", "--minimized"])));
    s.start_minimized = true;
    assert!(s.starts_hidden(&args(&[])));
}

#[test]
fn the_tray_menu() {
    assert!(matches!(menu_action("show"), MenuAction::Show));
    assert!(matches!(menu_action("dl"), MenuAction::OpenDownloads));
    assert!(matches!(menu_action("quit"), MenuAction::Quit));
    assert!(matches!(menu_action("x"), MenuAction::Nothing));
}

fn v6(groups: [u16; 8], text: &str) -> LanAddr {
    LanAddr::V6 { groups, text: text.to_string() }
}

#[test]
fn addresses_are_listed_v4_first() {
    let list = vec![
        LanAddr::V4([127, 0, 0, 1]),
        v6([0xfd00, 0, 0, 0, 0, 0, 0, 1], "fd00::1"),
        LanAddr::V4([169, 254, 3, 4]),
        LanAddr::V4([192, 168, 1, 20]),
        LanAddr::V4([192, 168, 1, 20]),
        v6([0, 0, 0, 0, 0, 0, 0, 1], "::1"),
        v6([0xfe80, 0, 0, 0, 0, 0, 0, 9], "fe80::9"),
        v6([0xfebf, 0, 0, 0, 0, 0, 0, 9], "febf::9"),
        v6([0xfec0, 0, 0, 0, 0, 0, 0, 9], "fec0::9"),
        LanAddr::V4([10, 0, 0, 100]),
        LanAddr::V4([192, 168, 1, 20]),
        LanAddr::V4([169, 253, 0, 0]),
    ];
    assert_eq!(
        reachable_ips(&list),
        vec!["192.168.1.20", "10.0.0.100", "192.168.1.20", "169.253.0.0", "fd00::1", "fec0::9"]
    );
    assert!(reachable_ips(&vec![]).is_empty());
}

#[test]
fn this_device_is_listed_by_its_own_addresses() {
    let own: Vec<String> = if_addrs::get_if_addrs()
        .map(|list| list.into_iter().map(|i| i.ip().to_string()).collect())
        .unwrap_or_default();
    let ips = lan_ips();
    assert!(ips.iter().all(|ip| own.contains(ip)));
    assert!(ips.iter().all(|ip| !ip.starts_with("127.") && ip != "::1"));
    assert!(ips.windows(2).all(|w| !w[0].contains(':') || w[1].contains(':')));
    let local = |ip: &String| ip.starts_with("169.254.") || ip.starts_with("fe8");
    for ip in own.iter().filter(|ip| !ip.starts_with("127.") && *ip != "::1" && !local(ip)) {
        let first = ip.split(':').next().unwrap_or("");
        if !["fe9", "fea", "feb"].iter().any(|p| first.starts_with(p)) {
            assert!(ips.contains(ip));
        }
    }
}

#[test]
fn v6_hosts_go_into_brackets() {
    assert_eq!(socket_addr("192.168.1.2", 80), "192.168.1.2:80");
    assert_eq!(socket_addr("fd00::1", 65535), "[fd00::1]:65535");
    assert_eq!(socket_addr("", 0), ":0");
}

fn file(name: &str, size: u64) -> DirItem {
    DirItem {
        key: name.as_bytes().to_vec(),
        name: name.to_string(),
        path: format!("/src/{name}"),
        kind: ItemKind::File { size, mtime: Some(5) },
    }
}

fn dir(name: &str, items: Vec<DirItem>) -> DirItem {
    DirItem {
        key: name.as_bytes().to_vec(),
        name: name.to_string(),
        path: format!("/src/{name}"),
        kind: ItemKind::Dir(items),
    }
}

#[test]
fn folders_are_listed_by_name() {
    let items = vec![
        file("b", 2),
        dir("a", vec![file("z", 3), file("y", 4), dir("empty", vec![])]),
        file("B", 1),
        file("aa", 7),
        DirItem { kind: ItemKind::Other, ..file("pipe", 0) },
    ];
    let out = list_dir(Some("root"), &items);
    let rels: Vec<&str> = out.iter().map(|e| e.rel.as_str()).collect();
    assert_eq!(rels, vec!["root/B", "root/a/y", "root/a/z", "root/aa", "root/b"]);
    assert_eq!((out[1].size, out[1].mtime, out[1].path.as_str()), (4, 5, "/src/y"));
    assert_eq!(list_dir(None, &vec![file("x", 1)])[0].rel, "folder/x");
    let mut more = out;
    walk(&vec![file("x", 1)], "", &mut more);
    assert_eq!(more[5].rel, "x");
    assert_eq!(strip_root(&more[1].rel), "a/y");
}

#[test]
fn a_folder_arrives_as_it_is() {
    let sent = list_dir(Some("photos"), &vec![dir("sea", vec![file("a b.jpg", 3)]), file("x", 1)]);
    let mut st: AppState<u32, u32> = AppState::new(first(), 0);
    let entries: Vec<Entry> =
        sent.iter().map(|e| Entry { rel: e.rel.clone(), size: e.size }).collect();
    let taken = |p: &aipoint_share::path::RelPath| p.file_name() == "photos";
    let session: Session<u32> = st.recv_session(&entries, 4, Some("photos"), taken).unwrap();
    let targets: Vec<String> = entries
        .iter()
        .map(|e| match session.file_for(&strip_root(&e.rel), e.size) {
            Ok(FileTarget::Create { path, .. }) => path.parts().join("/"),
            _ => panic!("a file to make was expected"),
        })
        .collect();
    assert_eq!(targets, vec!["photos (1)/sea/a b.jpg", "photos (1)/x"]);
}

#[test]
fn paths_are_looked_at() {
    let s = stat_path("/a/b.txt", Some("b.txt"), false, 9, Some((1u128 << 64) + 3));
    assert_eq!((s.is_dir, s.size, s.name.as_str(), s.mtime), (false, 9, "b.txt", 3));
    let s = stat_path("/", None, true, 4096, None);
    assert_eq!((s.is_dir, s.size, s.name.as_str(), s.mtime), (true, 0, "/", 0));
}

#[test]
fn a_buffer_is_filled_in_several_reads() {
    assert!(matches!(start_fill(0), FillStep::Done(0)));
    assert!(matches!(start_fill(10), FillStep::More(0)));
    assert!(matches!(fill(0, 10, 4), FillStep::More(4)));
    assert!(matches!(fill(4, 10, 6), FillStep::Done(10)));
    assert!(matches!(fill(4, 10, 0), FillStep::Done(4)));
}

fn read_bytes(file: &[u8], from: usize, len: usize, chunk: usize) -> Vec<u8> {
    let mut buf = vec![0u8; len];
    let mut step = start_fill(len);
    loop {
        match step {
            FillStep::More(got) => {
                let at = (from + got).min(file.len());
                let n = (len - got).min(chunk).min(file.len() - at);
                buf[got..got + n].copy_from_slice(&file[at..at + n]);
                step = fill(got, len, n);
            }
            FillStep::Done(got) => {
                buf.truncate(got);
                return buf;
            }
        }
    }
}

#[test]
fn neighbouring_ranges_are_one_range() {
    let file: Vec<u8> = (0..200).collect();
    for (from, a, b) in [(0, 50, 70), (150, 30, 40), (190, 20, 5), (200, 3, 3), (300, 1, 1), (7, 0, 9)] {
        let mut parts = read_bytes(&file, from, a, 7);
        parts.extend(read_bytes(&file, from + a, b, 3));
        assert_eq!(parts, read_bytes(&file, from, a + b, 11));
    }
    assert_eq!(read_bytes(&file, 195, 10, 2), vec![195, 196, 197, 198, 199]);
}

#[test]
fn a_block_is_written_in_several_writes() {
    assert!(matches!(start_write(100, 10), WriteStep::More { off: 100, from: 0 }));
    assert!(matches!(start_write(100, 0), WriteStep::Done));
    assert!(matches!(write_on(100, 0, 10, 4), WriteStep::More { off: 104, from: 4 }));
    assert!(matches!(write_on(104, 4, 10, 6), WriteStep::Done));
    assert!(matches!(write_on(104, 4, 10, 0), WriteStep::Stuck));
}

#[test]
fn a_block_cut_into_writes_is_in_the_file_as_it_is() {
    let buf: Vec<u8> = (1..=50).collect();
    for most in [1, 7, 50, 80] {
        let mut file = vec![0u8; 120];
        let mut step = start_write(30, buf.len());
        while let WriteStep::More { off, from } = step {
            let n = most.min(buf.len() - from);
            file[off as usize..off as usize + n].copy_from_slice(&buf[from..from + n]);
            step = write_on(off, from, buf.len(), n);
        }
        assert!(matches!(step, WriteStep::Done));
        assert_eq!(&file[30..80], &buf[..]);
        assert!(file[..30].iter().chain(&file[80..]).all(|b| *b == 0));
    }
}

#[test]
fn numbers_are_written_and_read() {
    for n in [0, 7, 10, 109, u64::MAX] {
        let mut s = String::from("n=");
        push_decimal(&mut s, n);
        assert_eq!(s, format!("n={n}"));
        assert_eq!(parse_u64(&s[2..]), Some(n));
    }
    for s in ["", "+", "-1", " 1", "1 ", "1_0", "++1", "99999999999999999999", "\u{661}"] {
        assert_eq!(parse_u64(s), s.parse::<u64>().ok());
    }
    assert_eq!(parse_u64("+007"), Some(7));
}
