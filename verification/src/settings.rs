//! What the user can set, and what the app reads from it.

use vstd::prelude::*;
use vstd::string::*;
use crate::join::{join_name, joined_to};
use crate::path::texts;
use crate::text::{chars_of, same_text};

verus! {

/// The settings that are kept between runs.
#[derive(Clone, Debug)]
pub struct Settings {
    /// The name shown to other devices.
    pub nick: String,
    /// Where received files go.
    pub download_dir: String,
    /// Whether the app starts with the session.
    pub autostart: bool,
    /// Whether closing the window leaves the app in the tray.
    pub close_to_tray: bool,
    /// Whether the window stays hidden at the start.
    pub start_minimized: bool,
}

/// How many characters a nickname may have.
pub const NICK_LIMIT: usize = 24;

/// Where received files go at first: below the download directory, else below
/// the home directory, else below the current one.
pub open spec fn first_download_dir(
    download: Option<Seq<char>>,
    home: Option<Seq<char>>,
    sep: char,
) -> Seq<char> {
    let dir = match download {
        Some(d) => d,
        None => match home {
            Some(h) => h,
            None => "."@,
        },
    };
    joined_to(dir, sep, "Dukto"@)
}

/// The text inside an option.
pub open spec fn opt_text(s: Option<String>) -> Option<Seq<char>> {
    match s {
        Some(t) => Some(t@),
        None => None,
    }
}

/// `dirs::download_dir`: the user's download directory, if the system names
/// one. Nothing is promised of the text, which comes from the environment. On
/// Linux the outside code reads the user's list of directories and panics where
/// that is malformed in certain ways, such as a value of one quote mark.
#[verifier::external_body]
fn download_dir() -> Option<String> {
    dirs::download_dir().map(|p| p.to_string_lossy().to_string())
}

/// `dirs::home_dir`: the user's home directory, if the system names one.
/// Nothing is promised of the text, which comes from the environment.
#[verifier::external_body]
fn home_dir() -> Option<String> {
    dirs::home_dir().map(|p| p.to_string_lossy().to_string())
}

/// `std::path::MAIN_SEPARATOR`: the character that separates path components
/// on this platform, a slash or a backslash. Which of them it is depends on the
/// platform.
#[verifier::external_body]
fn main_separator() -> (r: char)
    ensures
        r == '/' || r == '\\',
{
    std::path::MAIN_SEPARATOR
}

/// What a setting is set to. Anything that is neither a text nor a truth value
/// counts as missing.
pub enum SettingValue {
    Text(String),
    Flag(bool),
    Other,
}

/// A change to one setting.
pub enum SettingChange {
    Nick(String),
    /// The directory has to be made before the change is applied.
    DownloadDir(String),
    CloseToTray(bool),
    StartMinimized(bool),
    /// The system has to be told before the change is applied.
    Autostart(bool),
}

/// A change, with texts as sequences of characters.
pub enum Change {
    Nick(Seq<char>),
    DownloadDir(Seq<char>),
    CloseToTray(bool),
    StartMinimized(bool),
    Autostart(bool),
}

impl View for SettingChange {
    type V = Change;

    open spec fn view(&self) -> Change {
        match self {
            SettingChange::Nick(s) => Change::Nick(s@),
            SettingChange::DownloadDir(s) => Change::DownloadDir(s@),
            SettingChange::CloseToTray(b) => Change::CloseToTray(*b),
            SettingChange::StartMinimized(b) => Change::StartMinimized(*b),
            SettingChange::Autostart(b) => Change::Autostart(*b),
        }
    }
}

/// The text of a value, empty where it is none.
pub open spec fn value_text(v: SettingValue) -> Seq<char> {
    match v {
        SettingValue::Text(s) => s@,
        _ => Seq::empty(),
    }
}

/// The truth value of a value, `other` where it is none.
pub open spec fn value_flag(v: SettingValue, other: bool) -> bool {
    match v {
        SettingValue::Flag(b) => b,
        _ => other,
    }
}

/// The first `n` characters of a text, or all of it.
pub open spec fn first_chars(s: Seq<char>, n: int) -> Seq<char> {
    if s.len() <= n {
        s
    } else {
        s.take(n)
    }
}

/// The change that a request asks for, if its key is known.
pub open spec fn change_for(key: Seq<char>, v: SettingValue) -> Option<Change> {
    if key == "nick"@ {
        Some(Change::Nick(first_chars(value_text(v), NICK_LIMIT as int)))
    } else if key == "download_dir"@ {
        Some(Change::DownloadDir(value_text(v)))
    } else if key == "close_to_tray"@ {
        Some(Change::CloseToTray(value_flag(v, true)))
    } else if key == "start_minimized"@ {
        Some(Change::StartMinimized(value_flag(v, false)))
    } else if key == "autostart"@ {
        Some(Change::Autostart(value_flag(v, false)))
    } else {
        None
    }
}

/// The first `n` characters of a text, or all of it.
fn shorten(s: &str, n: usize) -> (r: String)
    ensures
        r@ == first_chars(s@, n as int),
{
    let v = chars_of(s);
    let mut out = String::new();
    let mut i: usize = 0;
    while i < v.len() && i < n
        invariant
            v@ == s@,
            i <= v.len(),
            i <= n,
            out@ == v@.take(i as int),
        decreases v.len() - i,
    {
        out.push(v[i]);
        proof {
            assert(v@.take(i + 1) =~= v@.take(i as int).push(v@[i as int]));
        }
        i = i + 1;
    }
    proof {
        assert(v@.take(v@.len() as int) =~= v@);
    }
    out
}

impl SettingValue {
    fn text(&self) -> (r: String)
        ensures
            r@ == value_text(*self),
    {
        match self {
            SettingValue::Text(s) => s.clone(),
            _ => String::new(),
        }
    }

    fn flag(&self, other: bool) -> (r: bool)
        ensures
            r == value_flag(*self, other),
    {
        match self {
            SettingValue::Flag(b) => *b,
            _ => other,
        }
    }
}

/// What a request to set `key` to `value` changes. Only an unknown key is an
/// error: a value of the wrong kind falls back to what the setting would be
/// without one.
pub fn setting_change(key: &str, value: &SettingValue) -> (r: Result<SettingChange, String>)
    ensures
        match r {
            Ok(c) => change_for(key@, *value) == Some(c@),
            Err(e) => change_for(key@, *value) is None && e@ == "unknown setting"@,
        },
{
    if same_text(key, "nick") {
        let t = value.text();
        Ok(SettingChange::Nick(shorten(t.as_str(), NICK_LIMIT)))
    } else if same_text(key, "download_dir") {
        Ok(SettingChange::DownloadDir(value.text()))
    } else if same_text(key, "close_to_tray") {
        Ok(SettingChange::CloseToTray(value.flag(true)))
    } else if same_text(key, "start_minimized") {
        Ok(SettingChange::StartMinimized(value.flag(false)))
    } else if same_text(key, "autostart") {
        Ok(SettingChange::Autostart(value.flag(false)))
    } else {
        Err("unknown setting".to_owned())
    }
}

/// The settings as the user interface is told of them.
pub struct SettingsReport {
    pub nick: String,
    pub download_dir: String,
    pub autostart: bool,
    pub close_to_tray: bool,
    pub start_minimized: bool,
    pub version: String,
    pub port: u64,
    pub ips: Vec<String>,
    pub os: String,
}

impl Settings {
    /// The settings of a first run, on a system with the given directories.
    pub fn first_run(download: Option<String>, home: Option<String>, sep: char) -> (s: Settings)
        ensures
            s.nick@ == Seq::<char>::empty(),
            s.download_dir@ == first_download_dir(opt_text(download), opt_text(home), sep),
            !s.autostart,
            s.close_to_tray,
            !s.start_minimized,
    {
        let dir = match download {
            Some(d) => d,
            None => match home {
                Some(h) => h,
                None => ".".to_owned(),
            },
        };
        Settings {
            nick: String::new(),
            download_dir: join_name(dir.as_str(), sep, "Dukto"),
            autostart: false,
            close_to_tray: true,
            start_minimized: false,
        }
    }

    /// Applies a change; every other setting stays as it was.
    pub fn apply(&mut self, c: SettingChange)
        ensures
            final(self).nick@ == (match c@ {
                Change::Nick(s) => s,
                _ => old(self).nick@,
            }),
            final(self).download_dir@ == (match c@ {
                Change::DownloadDir(s) => s,
                _ => old(self).download_dir@,
            }),
            final(self).close_to_tray == (match c@ {
                Change::CloseToTray(b) => b,
                _ => old(self).close_to_tray,
            }),
            final(self).start_minimized == (match c@ {
                Change::StartMinimized(b) => b,
                _ => old(self).start_minimized,
            }),
            final(self).autostart == (match c@ {
                Change::Autostart(b) => b,
                _ => old(self).autostart,
            }),
            final(self)@ == changed(old(self)@, c@),
    {
        match c {
            SettingChange::Nick(s) => self.nick = s,
            SettingChange::DownloadDir(s) => self.download_dir = s,
            SettingChange::CloseToTray(b) => self.close_to_tray = b,
            SettingChange::StartMinimized(b) => self.start_minimized = b,
            SettingChange::Autostart(b) => self.autostart = b,
        }
    }

    /// The settings as the user interface is told of them. What the system says
    /// of the autostart entry goes before what was stored.
    pub fn report(
        &self,
        launches: Option<bool>,
        version: String,
        port: u64,
        ips: Vec<String>,
        os: String,
    ) -> (r: SettingsReport)
        ensures
            r.nick@ == self.nick@,
            r.download_dir@ == self.download_dir@,
            r.autostart == (match launches {
                Some(b) => b,
                None => self.autostart,
            }),
            r.autostart == told_autostart(launches, self.autostart),
            r.close_to_tray == self.close_to_tray,
            r.start_minimized == self.start_minimized,
            r.version == version,
            r.port == port,
            r.ips == ips,
            r.os == os,
    {
        let autostart = match launches {
            Some(b) => b,
            None => self.autostart,
        };
        SettingsReport {
            nick: self.nick.clone(),
            download_dir: self.download_dir.clone(),
            autostart,
            close_to_tray: self.close_to_tray,
            start_minimized: self.start_minimized,
            version,
            port,
            ips,
            os,
        }
    }

    /// Whether the window is hidden at the start: asked for on the command line
    /// or in the settings.
    pub fn starts_hidden(&self, args: &Vec<String>) -> (r: bool)
        ensures
            r == (self.start_minimized || exists|i: int|
                0 <= i < args@.len() && (#[trigger] args@[i])@ == "--minimized"@),
            r == hidden(self.start_minimized, texts(args@)),
    {
        let mut i: usize = 0;
        while i < args.len()
            invariant
                i <= args.len(),
                forall|j: int| 0 <= j < i ==> (#[trigger] args@[j])@ != "--minimized"@,
            decreases args.len() - i,
        {
            if same_text(args[i].as_str(), "--minimized") {
                proof {
                    assert(texts(args@)[i as int] == "--minimized"@);
                }
                return true;
            }
            i = i + 1;
        }
        proof {
            assert forall|j: int| 0 <= j < texts(args@).len() implies #[trigger] texts(args@)[j]
                != "--minimized"@ by {
                assert(args@[j]@ != "--minimized"@);
            }
        }
        self.start_minimized
    }
}

impl Default for Settings {
    /// The settings of a first run on this system. Which directories it has is
    /// up to the machine.
    fn default() -> (s: Self)
        ensures
            s.nick@ == Seq::<char>::empty(),
            exists|download: Option<Seq<char>>, home: Option<Seq<char>>, sep: char|
                (sep == '/' || sep == '\\') && s.download_dir@ == #[trigger] first_download_dir(
                    download,
                    home,
                    sep,
                ),
            !s.autostart,
            s.close_to_tray,
            !s.start_minimized,
    {
        Settings::first_run(download_dir(), home_dir(), main_separator())
    }
}

/// The settings, with texts as sequences of characters.
pub struct SettingsView {
    pub nick: Seq<char>,
    pub download_dir: Seq<char>,
    pub autostart: bool,
    pub close_to_tray: bool,
    pub start_minimized: bool,
}

impl View for Settings {
    type V = SettingsView;

    open spec fn view(&self) -> SettingsView {
        SettingsView {
            nick: self.nick@,
            download_dir: self.download_dir@,
            autostart: self.autostart,
            close_to_tray: self.close_to_tray,
            start_minimized: self.start_minimized,
        }
    }
}

/// The settings after a change.
pub open spec fn changed(s: SettingsView, c: Change) -> SettingsView {
    match c {
        Change::Nick(t) => SettingsView { nick: t, ..s },
        Change::DownloadDir(t) => SettingsView { download_dir: t, ..s },
        Change::CloseToTray(b) => SettingsView { close_to_tray: b, ..s },
        Change::StartMinimized(b) => SettingsView { start_minimized: b, ..s },
        Change::Autostart(b) => SettingsView { autostart: b, ..s },
    }
}

/// What was set is what is there, and no other setting changes with it.
pub proof fn law_set_is_there(s: Settings, t: Seq<char>, b: bool)
    ensures
        changed(s@, Change::Nick(t)) == (SettingsView { nick: t, ..s@ }),
        changed(s@, Change::DownloadDir(t)) == (SettingsView { download_dir: t, ..s@ }),
        changed(s@, Change::CloseToTray(b)) == (SettingsView { close_to_tray: b, ..s@ }),
        changed(s@, Change::StartMinimized(b)) == (SettingsView { start_minimized: b, ..s@ }),
        changed(s@, Change::Autostart(b)) == (SettingsView { autostart: b, ..s@ }),
        s@.nick == s.nick@ && s@.download_dir == s.download_dir@,
        s@.autostart == s.autostart && s@.close_to_tray == s.close_to_tray,
        s@.start_minimized == s.start_minimized,
{
}

/// Whether the window is hidden at the start.
pub open spec fn hidden(minimized: bool, args: Seq<Seq<char>>) -> bool {
    minimized || exists|i: int| 0 <= i < args.len() && #[trigger] args[i] == "--minimized"@
}

/// The setting alone hides the window, and so does one argument, wherever it
/// stands; any other argument changes nothing.
pub proof fn law_hidden_by_setting_or_argument(
    minimized: bool,
    before: Seq<Seq<char>>,
    a: Seq<char>,
    after: Seq<Seq<char>>,
)
    ensures
        hidden(true, before),
        !hidden(false, Seq::empty()),
        a == "--minimized"@ ==> hidden(minimized, before.push(a) + after),
        a != "--minimized"@ ==> hidden(minimized, before.push(a) + after) == hidden(
            minimized,
            before + after,
        ),
{
    let all = before.push(a) + after;
    let rest = before + after;
    if a == "--minimized"@ {
        assert(all[before.len() as int] == a);
    } else {
        if exists|i: int| 0 <= i < all.len() && #[trigger] all[i] == "--minimized"@ {
            let i = choose|i: int| 0 <= i < all.len() && #[trigger] all[i] == "--minimized"@;
            if i < before.len() {
                assert(rest[i] == all[i]);
            } else {
                assert(rest[i - 1] == all[i]);
            }
        }
        if exists|i: int| 0 <= i < rest.len() && #[trigger] rest[i] == "--minimized"@ {
            let i = choose|i: int| 0 <= i < rest.len() && #[trigger] rest[i] == "--minimized"@;
            if i < before.len() {
                assert(all[i] == rest[i]);
            } else {
                assert(all[i + 1] == rest[i]);
            }
        }
    }
}

/// Whether the app is told to start with the session.
pub open spec fn told_autostart(launches: Option<bool>, stored: bool) -> bool {
    match launches {
        Some(b) => b,
        None => stored,
    }
}

/// What the system says of the autostart entry is told, and what was stored only
/// where it says nothing.
pub proof fn law_system_goes_first(b: bool, stored: bool)
    ensures
        told_autostart(Some(b), stored) == b,
        told_autostart(None, stored) == stored,
{
}

/// What an entry of the tray menu does.
pub enum MenuAction {
    Show,
    OpenDownloads,
    Quit,
    Nothing,
}

/// What the entry with an id does.
pub open spec fn action_of(id: Seq<char>) -> MenuAction {
    if id == "show"@ {
        MenuAction::Show
    } else if id == "dl"@ {
        MenuAction::OpenDownloads
    } else if id == "quit"@ {
        MenuAction::Quit
    } else {
        MenuAction::Nothing
    }
}

/// Each entry has one id, and an id that no entry has does nothing.
pub proof fn law_one_id_for_each_entry(id: Seq<char>)
    ensures
        action_of(id) == MenuAction::Show <==> id == seq!['s', 'h', 'o', 'w'],
        action_of(id) == MenuAction::OpenDownloads <==> id == seq!['d', 'l'],
        action_of(id) == MenuAction::Quit <==> id == seq!['q', 'u', 'i', 't'],
{
    reveal_strlit("show");
    reveal_strlit("dl");
    reveal_strlit("quit");
    assert("show"@ =~= seq!['s', 'h', 'o', 'w']);
    assert("dl"@ =~= seq!['d', 'l']);
    assert("quit"@ =~= seq!['q', 'u', 'i', 't']);
    assert("show"@[0] == 's');
    assert("quit"@[0] == 'q');
    assert("dl"@[0] == 'd');
}

/// What the entry of the tray menu with the given id does.
pub fn menu_action(id: &str) -> (r: MenuAction)
    ensures
        r == (if id@ == "show"@ {
            MenuAction::Show
        } else if id@ == "dl"@ {
            MenuAction::OpenDownloads
        } else if id@ == "quit"@ {
            MenuAction::Quit
        } else {
            MenuAction::Nothing
        }),
        r == action_of(id@),
{
    if same_text(id, "show") {
        MenuAction::Show
    } else if same_text(id, "dl") {
        MenuAction::OpenDownloads
    } else if same_text(id, "quit") {
        MenuAction::Quit
    } else {
        MenuAction::Nothing
    }
}

/// A nickname is the text that was asked for, or its first 24 characters where it
/// has more; what is no text makes it empty.
pub proof fn law_nick_is_cut(s: String, b: bool)
    ensures
        s@.len() <= 24 ==> change_for("nick"@, SettingValue::Text(s)) == Some(Change::Nick(s@)),
        s@.len() > 24 ==> change_for("nick"@, SettingValue::Text(s)) == Some(
            Change::Nick(s@.take(24)),
        ),
        change_for("nick"@, SettingValue::Flag(b)) == Some(Change::Nick(Seq::empty())),
        change_for("nick"@, SettingValue::Other) == Some(Change::Nick(Seq::empty())),
{
}

proof fn lemma_setting_names()
    ensures
        "nick"@ != "download_dir"@,
        "nick"@ != "close_to_tray"@,
        "nick"@ != "start_minimized"@,
        "nick"@ != "autostart"@,
        "download_dir"@ != "close_to_tray"@,
        "download_dir"@ != "start_minimized"@,
        "download_dir"@ != "autostart"@,
        "close_to_tray"@ != "start_minimized"@,
        "close_to_tray"@ != "autostart"@,
        "start_minimized"@ != "autostart"@,
{
    reveal_strlit("nick");
    reveal_strlit("download_dir");
    reveal_strlit("close_to_tray");
    reveal_strlit("start_minimized");
    reveal_strlit("autostart");
    assert("nick"@[0] == 'n');
    assert("download_dir"@[0] == 'd');
    assert("close_to_tray"@[0] == 'c');
    assert("start_minimized"@[0] == 's');
    assert("autostart"@[0] == 'a');
}

/// Each setting takes a value of its kind as it is. A value of another kind makes
/// the download directory empty, closing go to the tray, and the other two off.
/// There is no other setting.
pub proof fn law_settings_take_their_kind(key: Seq<char>, v: SettingValue, s: String, b: bool)
    ensures
        change_for("download_dir"@, SettingValue::Text(s)) == Some(Change::DownloadDir(s@)),
        !(v is Text) ==> change_for("download_dir"@, v) == Some(Change::DownloadDir(Seq::empty())),
        change_for("close_to_tray"@, SettingValue::Flag(b)) == Some(Change::CloseToTray(b)),
        !(v is Flag) ==> change_for("close_to_tray"@, v) == Some(Change::CloseToTray(true)),
        change_for("start_minimized"@, SettingValue::Flag(b)) == Some(Change::StartMinimized(b)),
        !(v is Flag) ==> change_for("start_minimized"@, v) == Some(Change::StartMinimized(false)),
        change_for("autostart"@, SettingValue::Flag(b)) == Some(Change::Autostart(b)),
        !(v is Flag) ==> change_for("autostart"@, v) == Some(Change::Autostart(false)),
        change_for(key, v) is None <==> key != "nick"@ && key != "download_dir"@ && key
            != "close_to_tray"@ && key != "start_minimized"@ && key != "autostart"@,
{
    lemma_setting_names();
}

/// The download directory goes before the home directory, and that before the
/// current one; whichever it is, `Dukto` is joined to it.
pub proof fn law_first_directory_there_is(
    d: Seq<char>,
    home: Option<Seq<char>>,
    sep: char,
)
    ensures
        first_download_dir(Some(d), home, sep) == joined_to(d, sep, seq!['D', 'u', 'k', 't', 'o']),
        first_download_dir(None, Some(d), sep) == first_download_dir(Some(d), home, sep),
        first_download_dir(None, None, sep) == first_download_dir(Some(seq!['.']), home, sep),
{
    reveal_strlit("Dukto");
    reveal_strlit(".");
    assert("Dukto"@ =~= seq!['D', 'u', 'k', 't', 'o']);
    assert("."@ =~= seq!['.']);
}

/// A change is seen as what it was made with.
pub proof fn law_changes_as_made(s: String, b: bool)
    ensures
        SettingChange::Nick(s)@ == Change::Nick(s@),
        SettingChange::DownloadDir(s)@ == Change::DownloadDir(s@),
        SettingChange::CloseToTray(b)@ == Change::CloseToTray(b),
        SettingChange::StartMinimized(b)@ == Change::StartMinimized(b),
        SettingChange::Autostart(b)@ == Change::Autostart(b),
        opt_text(Some(s)) == Some(s@),
        opt_text(None) is None,
{
}

} // verus!
