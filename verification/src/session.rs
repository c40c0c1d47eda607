//! A receive session: where the files of one incoming transfer go, which of
//! them are open, and how much of it has come.

use vstd::prelude::*;
use vstd::string::*;
use vstd::hash_map::StringHashMap;
use crate::number::{parse_u64, parsed_u64};
use crate::plan::Segment;
use crate::receive::sum;
use crate::path::{
    file_name_of, first_free, is_separator, joined, law_last_name_numbered, law_names_are_kept,
    law_sanitized_is_valid, law_slashes_alike, law_strip_root_undoes_prefix, sanitize_rel, sanitized, strip_root, stripped, texts, unique_path,
    valid_parts, RelPath,
};
use crate::wire::segment_header;

verus! {

/// A file that a peer offers.
pub struct Entry {
    pub rel: String,
    pub size: u64,
}

/// Where a session's files go, below the download directory: to one file, or
/// below one folder.
pub struct Place {
    path: RelPath,
    single: bool,
}

/// The name of a folder that the peer did not name.
pub open spec fn folder_name(root: Option<Seq<char>>) -> Seq<char> {
    match root {
        Some(r) => r,
        None => "folder"@,
    }
}

/// Whether a transfer is a single file: one entry, and no folder around it.
pub open spec fn is_single(entries: Seq<Entry>, root: Option<Seq<char>>) -> bool {
    entries.len() == 1 && root is None
}

/// Where a transfer would go if nothing was in the way: a single file under its
/// own name, anything else below its root folder.
pub open spec fn wanted_place(entries: Seq<Entry>, root: Option<Seq<char>>) -> Result<
    Seq<Seq<char>>,
    Seq<char>,
> {
    if is_single(entries, root) {
        match sanitized(entries[0].rel@) {
            Ok(p) => Ok(seq![file_name_of(p)]),
            Err(e) => Err(e),
        }
    } else {
        sanitized(folder_name(root))
    }
}

/// The text inside an option.
pub open spec fn opt_view(s: Option<&str>) -> Option<Seq<char>> {
    match s {
        Some(t) => Some(t@),
        None => None,
    }
}

impl Place {
    /// The file or the folder, below the download directory.
    pub closed spec fn parts(self) -> Seq<Seq<char>> {
        self.path@
    }

    /// Whether everything goes to one file.
    pub closed spec fn to_file(self) -> bool {
        self.single
    }

    /// Finds the place for a transfer: its own name, or a numbered one where
    /// that is taken.
    pub fn choose_for<F: Fn(&RelPath) -> bool>(
        entries: &Vec<Entry>,
        root: Option<&str>,
        is_taken: F,
    ) -> (r: Result<Place, String>)
        requires
            forall|q: &RelPath| call_requires(is_taken, (q,)),
        ensures
            match r {
                Ok(p) => {
                    &&& p.to_file() == is_single(entries@, opt_view(root))
                    &&& wanted_place(entries@, opt_view(root)) is Ok
                    &&& first_free(is_taken, wanted_place(entries@, opt_view(root))->Ok_0, p.parts())
                    &&& valid_parts(p.parts())
                },
                Err(e) => wanted_place(entries@, opt_view(root)) == Err::<
                    Seq<Seq<char>>,
                    Seq<char>,
                >(e@),
            },
    {
        if entries.len() == 1 && root.is_none() {
            match sanitize_rel(entries[0].rel.as_str()) {
                Ok(p) => {
                    let name = p.file_name();
                    let wanted = RelPath::single(name.as_str());
                    Ok(Place { path: unique_path(&wanted, is_taken), single: true })
                },
                Err(e) => Err(e),
            }
        } else {
            let name: &str = match root {
                Some(r) => r,
                None => "folder",
            };
            match sanitize_rel(name) {
                Ok(p) => Ok(Place { path: unique_path(&p, is_taken), single: false }),
                Err(e) => Err(e),
            }
        }
    }

    /// The file or the folder, below the download directory.
    pub fn path(&self) -> (r: &RelPath)
        ensures
            r@ == self.parts(),
    {
        &self.path
    }

    /// Whether everything goes to one file.
    pub fn is_file(&self) -> (r: bool)
        ensures
            r == self.to_file(),
    {
        self.single
    }

    /// Where the file goes that a peer names: the session's one file, or below
    /// the session's folder.
    pub open spec fn target(self, rel: Seq<char>) -> Result<Seq<Seq<char>>, Seq<char>> {
        if self.to_file() {
            Ok(self.parts())
        } else {
            match sanitized(rel) {
                Ok(p) => Ok(self.parts() + p),
                Err(e) => Err(e),
            }
        }
    }
}

/// A single file that comes without a folder goes under the last name of its path;
/// what is refused of its path is refused of it.
pub proof fn law_single_file_by_last_name(
    entries: Seq<Entry>,
    dirs: Seq<Seq<char>>,
    name: Seq<char>,
    tail: Seq<Seq<char>>,
)
    requires
        entries.len() == 1,
        name.len() > 0,
        forall|i: int| 0 <= i < tail.len() ==> (#[trigger] tail[i]).len() == 0,
    ensures
        is_single(entries, None),
        sanitized(entries[0].rel@) == Ok::<Seq<Seq<char>>, Seq<char>>(dirs.push(name) + tail)
            ==> wanted_place(entries, None) == Ok::<Seq<Seq<char>>, Seq<char>>(seq![name]),
        sanitized(entries[0].rel@) is Err ==> wanted_place(entries, None) == sanitized(
            entries[0].rel@,
        ),
{
    law_last_name_numbered(dirs, name, tail, 0);
}

/// Anything else goes below a folder: the one that the peer names, and `folder`
/// where it names none.
pub proof fn law_folder_by_root(entries: Seq<Entry>, root: Seq<char>)
    ensures
        !is_single(entries, Some(root)),
        wanted_place(entries, Some(root)) == sanitized(root),
        entries.len() != 1 ==> !is_single(entries, None) && wanted_place(entries, None) == Ok::<
            Seq<Seq<char>>,
            Seq<char>,
        >(seq![seq!['f', 'o', 'l', 'd', 'e', 'r']]),
{
    reveal_strlit("folder");
    let pieces = seq![seq!['f', 'o', 'l', 'd', 'e', 'r']];
    assert("folder"@ =~= pieces[0]);
    law_names_are_kept(pieces);
    assert(joined(pieces) == pieces[0]);
}

/// Below a session's folder, a file goes where its path leads from there, and it
/// is refused for what its path is refused for. A session's one file takes
/// whatever path.
pub proof fn law_target_is_below(place: Place, rel: Seq<char>)
    ensures
        place.to_file() ==> place.target(rel) == Ok::<Seq<Seq<char>>, Seq<char>>(place.parts()),
        !place.to_file() && sanitized(rel) is Ok ==> place.target(rel) == Ok::<
            Seq<Seq<char>>,
            Seq<char>,
        >(place.parts() + sanitized(rel)->Ok_0),
        !place.to_file() && sanitized(rel) is Err ==> place.target(rel) == sanitized(rel),
{
}

/// Whatever path a peer names, the file lies in the session's place: it is the
/// session's one file, or it is below the session's folder and no part of the
/// way from there leads out of it.
pub proof fn law_target_stays_in_place(place: Place, rel: Seq<char>)
    requires
        valid_parts(place.parts()),
        place.target(rel) is Ok,
    ensures
        place.to_file() ==> place.target(rel)->Ok_0 == place.parts(),
        !place.to_file() ==> {
            &&& place.target(rel)->Ok_0.len() > place.parts().len()
            &&& place.target(rel)->Ok_0.take(place.parts().len() as int) == place.parts()
            &&& valid_parts(place.target(rel)->Ok_0.skip(place.parts().len() as int))
        },
{
    if !place.to_file() {
        law_sanitized_is_valid(rel);
        let p = sanitized(rel)->Ok_0;
        let t = place.target(rel)->Ok_0;
        assert(t.take(place.parts().len() as int) =~= place.parts());
        assert(t.skip(place.parts().len() as int) =~= p);
    }
}

/// Below a session's folder, the sender's root folder is replaced by the
/// session's: `root/x/y`, stripped on the way, goes where `x/y` leads from the
/// session's folder.
pub proof fn law_root_maps_to_place(place: Place, root: Seq<char>, sep: char, rest: Seq<char>)
    requires
        !place.to_file(),
        forall|i: int| 0 <= i < root.len() ==> !is_separator(#[trigger] root[i]),
        is_separator(sep),
    ensures
        place.target(stripped(root.push(sep) + rest)) == (match sanitized(rest) {
            Ok(p) => Ok::<Seq<Seq<char>>, Seq<char>>(place.parts() + p),
            Err(e) => Err(e),
        }),
{
    law_strip_root_undoes_prefix(root, sep, rest);
    law_slashes_alike(rest);
}

/// A file that a session needs.
pub enum FileTarget<F> {
    /// It is open.
    Open(F),
    /// It has to be made, below the download directory, and given a length
    /// where one is known.
    Create { path: RelPath, set_len: Option<u64> },
}

/// What counting some bytes leads to.
#[derive(Clone, Copy)]
pub struct GotStep {
    /// What has come so far.
    pub got: u64,
    /// Whether the user interface is told of it.
    pub emit: bool,
    /// Whether the transfer is complete with it.
    pub finished: bool,
}

/// The user interface is told of progress at most this often, in milliseconds.
pub const EMIT_EVERY: u64 = 100;

/// A receive session. `F` is what stands for an open file.
pub struct Session<F> {
    sid: u64,
    token: String,
    dir: String,
    place: Place,
    total: u64,
    got: u64,
    done: bool,
    files: StringHashMap<usize>,
    opened: Vec<(String, F)>,
}

/// What counts in a session's progress.
pub struct Progress {
    pub total: u64,
    pub got: u64,
    pub done: bool,
}

/// The progress after `n` more bytes. A session is done once it has got all
/// that it was told of, and stays so.
pub open spec fn after_got(p: Progress, n: u64) -> Progress {
    Progress {
        total: p.total,
        got: (p.got + n) as u64,
        done: p.done || p.got + n >= p.total,
    }
}

/// Whether `n` more bytes complete a session: it was not complete before, and
/// is with them.
pub open spec fn completes(p: Progress, n: u64) -> bool {
    !p.done && p.got + n >= p.total
}

/// Whether the user interface is told of progress.
pub open spec fn is_told(elapsed: u64, got: u64, total: u64) -> bool {
    elapsed >= EMIT_EVERY || got >= total
}

/// The user interface is told of what completes a transfer at any time, and of
/// anything else once a tenth of a second has gone by.
pub proof fn law_when_progress_is_told(elapsed: u64, got: u64, total: u64)
    ensures
        got >= total ==> is_told(elapsed, got, total),
        got < total ==> (is_told(elapsed, got, total) <==> elapsed >= 100),
{
}

/// The length that a new file is given, if one is known.
pub open spec fn length_to_set(size: u64) -> Option<u64> {
    if size > 0 {
        Some(size)
    } else {
        None
    }
}

/// A file that will have bytes is given its full length, and an empty one none.
pub proof fn law_length_is_the_size(size: u64)
    ensures
        size == 0 <==> length_to_set(size) is None,
        length_to_set(size) is Some ==> length_to_set(size)->0 == size,
{
}

impl<F> Session<F> {
    pub closed spec fn spec_sid(self) -> u64 {
        self.sid
    }

    pub closed spec fn spec_token(self) -> Seq<char> {
        self.token@
    }

    /// The download directory that the session was opened with.
    pub closed spec fn spec_dir(self) -> Seq<char> {
        self.dir@
    }

    pub closed spec fn spec_place(self) -> Place {
        self.place
    }

    pub closed spec fn progress(self) -> Progress {
        Progress { total: self.total, got: self.got, done: self.done }
    }

    /// The files that are open, with the paths that the peer has for them, in
    /// the order in which they were opened.
    pub closed spec fn files(self) -> Seq<(Seq<char>, F)> {
        self.opened@.map_values(|e: (String, F)| (e.0@, e.1))
    }

    /// Each path has one open file at most, and every open file is found by its
    /// path.
    pub closed spec fn wf(self) -> bool {
        &&& valid_parts(self.place.parts())
        &&& forall|k: Seq<char>| #[trigger]
            self.files@.contains_key(k) ==> self.files@[k] < self.opened@.len()
                && self.opened@[self.files@[k] as int].0@ == k
        &&& forall|i: int|
            0 <= i < self.opened@.len() ==> self.files@.contains_key(
                (#[trigger] self.opened@[i]).0@,
            ) && self.files@[self.opened@[i].0@] == i
    }

    /// A session with nothing received and no file open.
    pub fn new(sid: u64, token: String, dir: String, place: Place, total: u64) -> (r: Self)
        requires
            valid_parts(place.parts()),
        ensures
            r.wf(),
            r.spec_sid() == sid,
            r.spec_token() == token@,
            r.spec_dir() == dir@,
            r.spec_place() == place,
            r.progress() == (Progress { total, got: 0, done: false }),
            r.files() == Seq::<(Seq<char>, F)>::empty(),
    {
        let r = Session {
            sid,
            token,
            dir,
            place,
            total,
            got: 0,
            done: false,
            files: StringHashMap::new(),
            opened: Vec::new(),
        };
        proof {
            assert(r.files() =~= Seq::<(Seq<char>, F)>::empty());
        }
        r
    }

    pub fn sid(&self) -> (r: u64)
        ensures
            r == self.spec_sid(),
    {
        self.sid
    }

    pub fn token(&self) -> (r: &str)
        ensures
            r@ == self.spec_token(),
    {
        self.token.as_str()
    }

    pub fn dir(&self) -> (r: &str)
        ensures
            r@ == self.spec_dir(),
    {
        self.dir.as_str()
    }

    pub fn place(&self) -> (r: &Place)
        ensures
            *r == self.spec_place(),
    {
        &self.place
    }

    pub fn total(&self) -> (r: u64)
        ensures
            r == self.progress().total,
    {
        self.total
    }

    pub fn got(&self) -> (r: u64)
        ensures
            r == self.progress().got,
    {
        self.got
    }

    /// The files that are open.
    pub fn opened(&self) -> (r: &Vec<(String, F)>)
        ensures
            r@.map_values(|e: (String, F)| (e.0@, e.1)) == self.files(),
    {
        &self.opened
    }
}

/// Where the open file for a path stands, if there is one.
pub open spec fn file_at<F>(files: Seq<(Seq<char>, F)>, rel: Seq<char>, i: int) -> bool {
    0 <= i < files.len() && files[i].0 == rel
}

/// Whether a file is open for a path.
pub open spec fn is_open<F>(files: Seq<(Seq<char>, F)>, rel: Seq<char>) -> bool {
    exists|i: int| #[trigger] file_at(files, rel, i)
}

impl<F: Clone> Session<F> {
    /// The file for a path that a peer names: the open one, or how to make it.
    /// A session for a single file has one file, whatever the path.
    pub fn file_for(&self, rel: &str, size: u64) -> (r: Result<FileTarget<F>, String>)
        requires
            self.wf(),
        ensures
            match r {
                Ok(FileTarget::Open(f)) => exists|i: int| #[trigger]
                    file_at(self.files(), rel@, i) && cloned(self.files()[i].1, f),
                Ok(FileTarget::Create { path, set_len }) => {
                    &&& !is_open(self.files(), rel@)
                    &&& self.spec_place().target(rel@) == Ok::<Seq<Seq<char>>, Seq<char>>(path@)
                    &&& valid_parts(path@)
                    &&& set_len == (if size > 0 {
                        Some(size)
                    } else {
                        None
                    })
                    &&& set_len == length_to_set(size)
                },
                Err(e) => !is_open(self.files(), rel@) && self.spec_place().target(rel@) == Err::<
                    Seq<Seq<char>>,
                    Seq<char>,
                >(e@),
            },
    {
        match self.files.get(rel) {
            Some(at) => {
                let i = *at;
                let f = self.opened[i].1.clone();
                proof {
                    assert(file_at(self.files(), rel@, i as int));
                }
                return Ok(FileTarget::Open(f));
            },
            None => {},
        }
        proof {
            if is_open(self.files(), rel@) {
                let i = choose|i: int| #[trigger] file_at(self.files(), rel@, i);
                assert(self.files()[i].0 == self.opened@[i].0@);
                assert(self.files@.contains_key(self.opened@[i].0@));
            }
        }
        let set_len: Option<u64> = if size > 0 {
            Some(size)
        } else {
            None
        };
        if self.place.single {
            Ok(FileTarget::Create { path: self.place.path.clone(), set_len })
        } else {
            match sanitize_rel(rel) {
                Ok(p) => Ok(FileTarget::Create { path: self.place.path.join(&p), set_len }),
                Err(e) => Err(e),
            }
        }
    }
}

impl<F> Session<F> {
    /// Keeps a file that was opened for a path.
    pub fn add_file(&mut self, rel: &str, file: F)
        requires
            old(self).wf(),
            !is_open(old(self).files(), rel@),
        ensures
            final(self).wf(),
            final(self).files() == old(self).files().push((rel@, file)),
            final(self).spec_sid() == old(self).spec_sid(),
            final(self).spec_token() == old(self).spec_token(),
            final(self).spec_dir() == old(self).spec_dir(),
            final(self).spec_place() == old(self).spec_place(),
            final(self).progress() == old(self).progress(),
    {
        let ghost before = *self;
        let at = self.opened.len();
        proof {
            if self.files@.contains_key(rel@) {
                let i = self.files@[rel@] as int;
                assert(file_at(self.files(), rel@, i));
            }
        }
        self.opened.push((rel.to_owned(), file));
        self.files.insert(rel.to_owned(), at);
        proof {
            assert(self.files() =~= before.files().push((rel@, file)));
            assert forall|k: Seq<char>| #[trigger] self.files@.contains_key(k) implies self.files@[k]
                < self.opened@.len() && self.opened@[self.files@[k] as int].0@ == k by {
                if k != rel@ {
                    assert(before.files@.contains_key(k));
                }
            }
            assert forall|i: int| 0 <= i < self.opened@.len() implies self.files@.contains_key(
                (#[trigger] self.opened@[i]).0@,
            ) && self.files@[self.opened@[i].0@] == i by {
                if i < before.opened@.len() {
                    assert(self.opened@[i] == before.opened@[i]);
                    assert(before.files@.contains_key(before.opened@[i].0@));
                }
            }
        }
    }

    /// The path under which bytes without a path are written: that of a file
    /// that is open, or `file` where none is.
    pub fn write_key(&self) -> (r: String)
        ensures
            r@ == (if self.files().len() > 0 {
                self.files()[0].0
            } else {
                "file"@
            }),
    {
        if self.opened.len() > 0 {
            self.opened[0].0.clone()
        } else {
            "file".to_owned()
        }
    }

    /// Counts `n` more bytes, where the user interface was told of progress
    /// `elapsed` milliseconds ago. It is told again if that is long enough, or
    /// if everything has come.
    pub fn add_got(&mut self, n: u64, elapsed: u64) -> (r: GotStep)
        requires
            old(self).wf(),
            old(self).progress().got + n <= u64::MAX,
        ensures
            final(self).wf(),
            final(self).progress() == after_got(old(self).progress(), n),
            r.got == final(self).progress().got,
            r.emit == (elapsed >= EMIT_EVERY || r.got >= old(self).progress().total),
            r.emit == is_told(elapsed, r.got, old(self).progress().total),
            r.finished == completes(old(self).progress(), n),
            final(self).files() == old(self).files(),
            final(self).spec_sid() == old(self).spec_sid(),
            final(self).spec_token() == old(self).spec_token(),
            final(self).spec_dir() == old(self).spec_dir(),
            final(self).spec_place() == old(self).spec_place(),
    {
        self.got = self.got + n;
        let complete = self.got >= self.total;
        let finished = complete && !self.done;
        if complete {
            self.done = true;
        }
        GotStep { got: self.got, emit: elapsed >= EMIT_EVERY || complete, finished }
    }
}

/// A path has one open file at most.
pub proof fn law_one_file_per_path<F>(s: Session<F>, rel: Seq<char>, i: int, j: int)
    requires
        s.wf(),
        file_at(s.files(), rel, i),
        file_at(s.files(), rel, j),
    ensures
        i == j,
{
    assert(s.opened@[i].0@ == rel);
    assert(s.opened@[j].0@ == rel);
}

/// Keeping a file opens its path and no other, and no file is closed by it.
pub proof fn law_added_is_open<F>(
    files: Seq<(Seq<char>, F)>,
    rel: Seq<char>,
    file: F,
    other: Seq<char>,
)
    ensures
        is_open(files.push((rel, file)), other) == (is_open(files, other) || other == rel),
{
    let all = files.push((rel, file));
    if is_open(files, other) {
        let i = choose|i: int| #[trigger] file_at(files, other, i);
        assert(file_at(all, other, i));
    }
    if other == rel {
        assert(file_at(all, other, files.len() as int));
    }
    if is_open(all, other) && other != rel {
        let i = choose|i: int| #[trigger] file_at(all, other, i);
        assert(file_at(files, other, i));
    }
}

/// The progress after several counts.
pub open spec fn after_counts(p: Progress, ns: Seq<u64>) -> Progress
    decreases ns.len(),
{
    if ns.len() == 0 {
        p
    } else {
        after_got(after_counts(p, ns.drop_last()), ns.last())
    }
}

/// How often a session is completed by several counts.
pub open spec fn completions(p: Progress, ns: Seq<u64>) -> nat
    decreases ns.len(),
{
    if ns.len() == 0 {
        0
    } else {
        completions(p, ns.drop_last()) + (if completes(after_counts(p, ns.drop_last()), ns.last()) {
            1nat
        } else {
            0nat
        })
    }
}

/// However its bytes are counted, a session counts them all and is completed
/// once: with the count that reaches the total, and by no other. Before that
/// it is not completed.
pub proof fn law_completed_once(p: Progress, ns: Seq<u64>)
    requires
        !p.done,
        p.got + sum(ns) <= u64::MAX,
    ensures
        after_counts(p, ns).total == p.total,
        after_counts(p, ns).got == p.got + sum(ns),
        completions(p, ns) == (if ns.len() > 0 && p.got + sum(ns) >= p.total {
            1nat
        } else {
            0nat
        }),
        after_counts(p, ns).done == (completions(p, ns) == 1),
    decreases ns.len(),
{
    if ns.len() > 0 {
        law_completed_once(p, ns.drop_last());
    }
}

/// The path under which an empty file is made right away: below a folder, the
/// sender's root is taken off.
pub open spec fn empty_file(e: Entry, below_root: bool) -> Seq<char> {
    if below_root {
        stripped(e.rel@)
    } else {
        e.rel@
    }
}

/// An empty file that is made right away is known by the path that its header has
/// when it comes below a root, and else by the path that the peer told.
pub proof fn law_empty_file_is_the_announced(e: Entry, token: Seq<char>, seg: Segment)
    requires
        seg.rel@ == e.rel@,
    ensures
        empty_file(e, true) == segment_header(token, seg).rel,
        empty_file(e, false) == e.rel@,
{
}

/// What to do at once for a transfer of `total` bytes: one without a byte is
/// complete as soon as its files are made, and these are their paths; any other
/// waits for its bytes.
pub fn files_to_make(entries: &Vec<Entry>, total: u64, below_root: bool) -> (r: Option<Vec<String>>)
    ensures
        match r {
            Some(v) => total == 0 && texts(v@) == entries@.map_values(
                |e: Entry| empty_file(e, below_root),
            ),
            None => total > 0,
        },
{
    if total > 0 {
        return None;
    }
    let mut out: Vec<String> = Vec::new();
    let ghost all = entries@.map_values(|e: Entry| empty_file(e, below_root));
    let mut i: usize = 0;
    proof {
        assert(texts(out@) =~= all.take(0));
    }
    while i < entries.len()
        invariant
            i <= entries.len(),
            all == entries@.map_values(|e: Entry| empty_file(e, below_root)),
            texts(out@) == all.take(i as int),
        decreases entries.len() - i,
    {
        let rel = if below_root {
            strip_root(entries[i].rel.as_str())
        } else {
            entries[i].rel.clone()
        };
        let ghost before = out@;
        out.push(rel);
        proof {
            assert(texts(out@) =~= texts(before).push(all[i as int]));
            assert(all.take(i + 1) =~= all.take(i as int).push(all[i as int]));
        }
        i = i + 1;
    }
    proof {
        assert(all.take(all.len() as int) =~= all);
    }
    Some(out)
}

/// What a request to write bytes is refused for, in the order in which it is
/// looked at.
pub open spec fn write_refusal(
    sid: Option<Seq<char>>,
    off: Option<Seq<char>>,
    raw: bool,
) -> Option<Seq<char>> {
    if number_in(sid) is None {
        Some("sid"@)
    } else if number_in(off) is None {
        Some("off"@)
    } else if !raw {
        Some("raw body expected"@)
    } else {
        None
    }
}

/// The number in a field of a request, if there is a field and it is a number.
pub open spec fn number_in(field: Option<Seq<char>>) -> Option<u64> {
    match field {
        Some(s) => parsed_u64(s),
        None => None,
    }
}

fn read_number(field: Option<&str>) -> (r: Option<u64>)
    ensures
        r == number_in(opt_view(field)),
{
    match field {
        Some(s) => parse_u64(s),
        None => None,
    }
}

/// Reads a request to write bytes: its session, and the place in the file.
/// `raw` says whether the request came with bytes.
pub fn write_request(sid: Option<&str>, off: Option<&str>, raw: bool) -> (r: Result<
    (u64, u64),
    String,
>)
    ensures
        match r {
            Ok(q) => {
                &&& write_refusal(opt_view(sid), opt_view(off), raw) is None
                &&& number_in(opt_view(sid)) == Some(q.0)
                &&& number_in(opt_view(off)) == Some(q.1)
            },
            Err(e) => write_refusal(opt_view(sid), opt_view(off), raw) == Some(e@),
        },
{
    match read_number(sid) {
        None => Err("sid".to_owned()),
        Some(s) => match read_number(off) {
            None => Err("off".to_owned()),
            Some(o) => {
                if raw {
                    Ok((s, o))
                } else {
                    Err("raw body expected".to_owned())
                }
            },
        },
    }
}

/// A request to write bytes is taken if and only if it names a session and a place
/// in numbers and comes with bytes. It is refused for the first of these that it
/// has not.
pub proof fn law_first_fault_is_told(sid: Option<Seq<char>>, off: Option<Seq<char>>, raw: bool)
    ensures
        write_refusal(sid, off, raw) is None <==> sid is Some && parsed_u64(sid->0) is Some && off
            is Some && parsed_u64(off->0) is Some && raw,
        sid is None || parsed_u64(sid->0) is None ==> write_refusal(sid, off, raw) == Some("sid"@),
        sid is Some && parsed_u64(sid->0) is Some && (off is None || parsed_u64(off->0) is None)
            ==> write_refusal(sid, off, raw) == Some("off"@),
        sid is Some && parsed_u64(sid->0) is Some && off is Some && parsed_u64(off->0) is Some && !raw
            ==> write_refusal(sid, off, raw) == Some("raw body expected"@),
        sid is Some ==> number_in(sid) == parsed_u64(sid->0),
{
}

/// A text that may be missing is seen as it is.
pub proof fn law_optional_text_as_it_is(s: &str)
    ensures
        opt_view(Some(s)) == Some(s@),
        opt_view(None) is None,
{
}

/// A count adds its bytes, and completes a session that was not complete if and
/// only if all that it was told of has come with it.
pub proof fn law_counts_add_up(p: Progress, n: u64)
    requires
        p.got + n <= u64::MAX,
    ensures
        after_got(p, n).got == p.got + n,
        after_got(p, n).total == p.total,
        after_got(p, n).done <==> p.done || p.got + n >= p.total,
        completes(p, n) <==> !p.done && after_got(p, n).done,
{
}

} // verus!
