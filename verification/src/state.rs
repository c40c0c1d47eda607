//! What the app holds while it runs: the settings, the sessions that peers may
//! write into, and the transfers that can be cancelled.

use vstd::prelude::*;
use vstd::string::*;
use vstd::hash_map::StringHashMap;
use std::collections::HashMap;
use crate::path::{first_free, valid_parts, RelPath};
use crate::session::{is_single, opt_view, wanted_place, Entry, Place, Progress, Session};
use crate::receive::{closing, recv_next, RecvAction, RecvEvent, RecvState};
use crate::settings::Settings;
use crate::token::{fresh_token, is_token_char, TOKEN_LEN};

verus! {

broadcast use vstd::std_specs::hash::group_hash_axioms;

/// The sessions, by number and by token.
pub struct Registry<S> {
    /// Each session, with its token.
    pub sessions: Map<u64, (Seq<char>, S)>,
    /// The number of the session that a token opens.
    pub tokens: Map<Seq<char>, u64>,
    /// The last number that was given out.
    pub last: u64,
}

impl<S> Registry<S> {
    /// Every token opens a session that was given it, and every session has a
    /// number that was given out.
    pub open spec fn valid(self) -> bool {
        &&& forall|t: Seq<char>| #[trigger]
            self.tokens.contains_key(t) ==> self.sessions.contains_key(self.tokens[t])
                && self.sessions[self.tokens[t]].0 == t
        &&& forall|sid: u64| #[trigger] self.sessions.contains_key(sid) ==> 1 <= sid <= self.last
    }

    /// Every session is the one that its token opens.
    pub open spec fn all_reachable(self) -> bool {
        forall|sid: u64| #[trigger]
            self.sessions.contains_key(sid) ==> self.tokens.contains_key(self.sessions[sid].0)
                && self.tokens[self.sessions[sid].0] == sid
    }

    /// The session with a number.
    pub open spec fn by_sid(self, sid: u64) -> Option<S> {
        if self.sessions.contains_key(sid) {
            Some(self.sessions[sid].1)
        } else {
            None
        }
    }

    /// The session that a token opens.
    pub open spec fn by_token(self, token: Seq<char>) -> Option<S> {
        if self.tokens.contains_key(token) {
            self.by_sid(self.tokens[token])
        } else {
            None
        }
    }

    /// With one more session.
    pub open spec fn with(self, sid: u64, token: Seq<char>, session: S) -> Registry<S> {
        Registry {
            sessions: self.sessions.insert(sid, (token, session)),
            tokens: self.tokens.insert(token, sid),
            last: self.last,
        }
    }

    /// Without a session and its token.
    pub open spec fn without(self, sid: u64) -> Registry<S> {
        if self.sessions.contains_key(sid) {
            Registry {
                sessions: self.sessions.remove(sid),
                tokens: self.tokens.remove(self.sessions[sid].0),
                last: self.last,
            }
        } else {
            self
        }
    }
}

/// A session that is registered is found by its number and by its token, and
/// the registry stays valid.
pub proof fn law_registered_is_found<S>(r: Registry<S>, sid: u64, token: Seq<char>, session: S)
    requires
        r.valid(),
        1 <= sid <= r.last,
        !r.sessions.contains_key(sid),
    ensures
        r.with(sid, token, session).valid(),
        r.with(sid, token, session).by_sid(sid) == Some(session),
        r.with(sid, token, session).by_token(token) == Some(session),
{
    let a = r.with(sid, token, session);
    assert forall|t: Seq<char>| #[trigger] a.tokens.contains_key(t) implies a.sessions.contains_key(
        a.tokens[t],
    ) && a.sessions[a.tokens[t]].0 == t by {
        if t != token {
            assert(r.tokens.contains_key(t));
        }
    }
    assert forall|n: u64| #[trigger] a.sessions.contains_key(n) implies 1 <= n <= a.last by {
        if n != sid {
            assert(r.sessions.contains_key(n));
        }
    }
}

/// A session that is closed is found neither by its number nor by any token,
/// and the registry stays valid.
pub proof fn law_closed_is_gone<S>(r: Registry<S>, sid: u64, token: Seq<char>)
    requires
        r.valid(),
    ensures
        r.without(sid).valid(),
        r.without(sid).by_sid(sid) is None,
        r.without(sid).tokens.contains_key(token) ==> r.without(sid).tokens[token] != sid,
        r.sessions.contains_key(sid) ==> r.without(sid).by_token(r.sessions[sid].0) is None,
{
    let a = r.without(sid);
    assert forall|t: Seq<char>| #[trigger] a.tokens.contains_key(t) implies a.sessions.contains_key(
        a.tokens[t],
    ) && a.sessions[a.tokens[t]].0 == t by {
        assert(r.tokens.contains_key(t));
    }
    assert forall|n: u64| #[trigger] a.sessions.contains_key(n) implies 1 <= n <= a.last by {
        assert(r.sessions.contains_key(n));
    }
    if a.tokens.contains_key(token) {
        assert(a.sessions.contains_key(a.tokens[token]));
    }
}

/// A peer that shows the token of a session that is closed is refused, and its
/// connection ends.
pub proof fn law_closed_session_refuses<S>(r: Registry<S>, sid: u64, offset: u64, len: u64)
    requires
        r.valid(),
        r.sessions.contains_key(sid),
    ensures
        recv_next(
            RecvState::Header,
            RecvEvent::Header {
                offset,
                len,
                known: r.without(sid).by_token(r.sessions[sid].0) is Some,
            },
        ) == closing(RecvAction::Refuse),
{
    law_closed_is_gone(r, sid, r.sessions[sid].0);
}

/// Registering a session leaves every session with another number, and every
/// other token, as it was.
pub proof fn law_register_leaves_others<S>(
    r: Registry<S>,
    sid: u64,
    token: Seq<char>,
    session: S,
    other: u64,
    other_token: Seq<char>,
)
    requires
        r.valid(),
        !r.sessions.contains_key(sid),
        other != sid,
        other_token != token,
    ensures
        r.with(sid, token, session).by_sid(other) == r.by_sid(other),
        r.with(sid, token, session).by_token(other_token) == r.by_token(other_token),
{
    if r.tokens.contains_key(other_token) {
        assert(r.sessions.contains_key(r.tokens[other_token]));
    }
}

/// Closing a session leaves every session with another number, and every token
/// but its own, as it was.
pub proof fn law_close_leaves_others<S>(
    r: Registry<S>,
    sid: u64,
    other: u64,
    other_token: Seq<char>,
)
    requires
        r.valid(),
        other != sid,
        r.sessions.contains_key(sid) ==> other_token != r.sessions[sid].0,
    ensures
        r.without(sid).by_sid(other) == r.by_sid(other),
        r.without(sid).by_token(other_token) == r.by_token(other_token),
{
    if r.tokens.contains_key(other_token) {
        assert(r.sessions[r.tokens[other_token]].0 == other_token);
    }
}

/// Where no two sessions are given the same token, each keeps its own while it
/// is open: this holds at the start, and opening or closing a session leaves it
/// so.
pub proof fn law_live_session_keeps_token<S>(
    r: Registry<S>,
    sid: u64,
    token: Seq<char>,
    session: S,
    closed: u64,
)
    requires
        r.valid(),
        r.all_reachable(),
        !r.sessions.contains_key(sid),
        !r.tokens.contains_key(token),
    ensures
        (Registry::<S> { sessions: Map::empty(), tokens: Map::empty(), last: 0 }).all_reachable(),
        r.with(sid, token, session).all_reachable(),
        r.without(closed).all_reachable(),
        forall|live: u64| #[trigger]
            r.sessions.contains_key(live) ==> r.by_token(r.sessions[live].0) == r.by_sid(live),
{
    let a = r.with(sid, token, session);
    assert forall|live: u64| #[trigger] a.sessions.contains_key(live) implies a.tokens.contains_key(
        a.sessions[live].0,
    ) && a.tokens[a.sessions[live].0] == live by {
        if live != sid {
            assert(r.sessions.contains_key(live));
        }
    }
    let b = r.without(closed);
    assert forall|live: u64| #[trigger] b.sessions.contains_key(live) implies b.tokens.contains_key(
        b.sessions[live].0,
    ) && b.tokens[b.sessions[live].0] == live by {
        assert(r.sessions.contains_key(live));
        if r.sessions.contains_key(closed) {
            assert(r.tokens[r.sessions[closed].0] == closed);
        }
    }
}

/// Closing a session undoes opening it, where its token was not in use.
pub proof fn law_close_undoes_open<S>(r: Registry<S>, sid: u64, token: Seq<char>, session: S)
    requires
        !r.sessions.contains_key(sid),
        !r.tokens.contains_key(token),
    ensures
        r.with(sid, token, session).without(sid) == r,
{
    let a = r.with(sid, token, session).without(sid);
    assert(a.sessions =~= r.sessions);
    assert(a.tokens =~= r.tokens);
}

/// A session and its token.
struct Held<S> {
    token: String,
    session: S,
}

/// What the app holds while it runs. `S` is what stands for a session, `C` for
/// the switch that cancels a transfer.
#[verifier::reject_recursive_types(C)]
pub struct AppState<S, C> {
    settings: Settings,
    sessions: HashMap<u64, Held<S>>,
    tokens: StringHashMap<u64>,
    next_id: u64,
    tcp_port: u64,
    cancel_tx: StringHashMap<C>,
}

impl<S, C> AppState<S, C> {
    pub closed spec fn registry(self) -> Registry<S> {
        Registry {
            sessions: self.sessions@.map_values(|h: Held<S>| (h.token@, h.session)),
            tokens: self.tokens@,
            last: self.next_id,
        }
    }

    pub closed spec fn spec_settings(self) -> Settings {
        self.settings
    }

    pub closed spec fn spec_port(self) -> u64 {
        self.tcp_port
    }

    /// The switches of the transfers that are under way.
    pub closed spec fn switches(self) -> Map<Seq<char>, C> {
        self.cancel_tx@
    }

    pub open spec fn wf(self) -> bool {
        self.registry().valid()
    }

    /// Whether nothing but the registry differs.
    pub open spec fn same_but_registry(self, other: Self) -> bool {
        &&& self.spec_settings() == other.spec_settings()
        &&& self.spec_port() == other.spec_port()
        &&& self.switches() == other.switches()
    }

    /// The state at the start: no session, and no transfer.
    pub fn new(settings: Settings, tcp_port: u64) -> (r: Self)
        ensures
            r.wf(),
            r.registry() == (Registry::<S> { sessions: Map::empty(), tokens: Map::empty(), last: 0 }),
            r.spec_settings() == settings,
            r.spec_port() == tcp_port,
            r.switches() == Map::<Seq<char>, C>::empty(),
    {
        let r = AppState {
            settings,
            sessions: HashMap::new(),
            tokens: StringHashMap::new(),
            next_id: 0,
            tcp_port,
            cancel_tx: StringHashMap::new(),
        };
        proof {
            assert(r.registry().sessions =~= Map::<u64, (Seq<char>, S)>::empty());
        }
        r
    }

    pub fn settings(&self) -> (r: &Settings)
        ensures
            *r == self.spec_settings(),
    {
        &self.settings
    }

    /// Puts other settings in the place of those that are there.
    pub fn set_settings(&mut self, s: Settings)
        requires
            old(self).wf(),
        ensures
            final(self).wf(),
            final(self).spec_settings() == s,
            final(self).spec_port() == old(self).spec_port(),
            final(self).switches() == old(self).switches(),
            final(self).registry() == old(self).registry(),
    {
        self.settings = s;
    }

    pub fn tcp_port(&self) -> (r: u64)
        ensures
            r == self.spec_port(),
    {
        self.tcp_port
    }

    /// A number for a new session: one more than the last.
    pub fn next_sid(&mut self) -> (r: u64)
        requires
            old(self).wf(),
            old(self).registry().last < u64::MAX,
        ensures
            final(self).wf(),
            r == old(self).registry().last + 1,
            final(self).registry() == (Registry { last: r, ..old(self).registry() }),
            !final(self).registry().sessions.contains_key(r),
            final(self).same_but_registry(*old(self)),
    {
        let ghost before = self.registry();
        self.next_id = self.next_id + 1;
        proof {
            let after = self.registry();
            assert forall|t: Seq<char>| #[trigger]
                after.tokens.contains_key(t) implies after.sessions.contains_key(after.tokens[t])
                && after.sessions[after.tokens[t]].0 == t by {
                assert(before.tokens.contains_key(t));
            }
            assert forall|sid: u64| #[trigger] after.sessions.contains_key(sid) implies 1 <= sid
                <= after.last by {
                assert(before.sessions.contains_key(sid));
            }
            if after.sessions.contains_key(self.next_id) {
                assert(before.sessions.contains_key(self.next_id));
            }
        }
        self.next_id
    }

    /// Whether another session can be numbered.
    pub fn can_number(&self) -> (r: bool)
        ensures
            r == (self.registry().last < u64::MAX),
    {
        self.next_id < u64::MAX
    }

    /// Prepares a session for a transfer that a peer offers: it gets the next
    /// number and a place below the download directory that is not taken yet.
    /// The number is used up even where the peer's path is refused. Peers reach
    /// the session once it is registered.
    pub fn prepare_session<F, T: Fn(&RelPath) -> bool>(
        &mut self,
        entries: &Vec<Entry>,
        total: u64,
        root: Option<&str>,
        token: String,
        is_taken: T,
    ) -> (r: Result<Session<F>, String>)
        requires
            old(self).wf(),
            old(self).registry().last < u64::MAX,
            forall|q: &RelPath| call_requires(is_taken, (q,)),
        ensures
            final(self).wf(),
            final(self).registry() == (Registry {
                last: (old(self).registry().last + 1) as u64,
                ..old(self).registry()
            }),
            final(self).same_but_registry(*old(self)),
            match r {
                Ok(s) => {
                    &&& s.wf()
                    &&& s.spec_sid() == old(self).registry().last + 1
                    &&& !final(self).registry().sessions.contains_key(s.spec_sid())
                    &&& s.spec_token() == token@
                    &&& s.spec_dir() == old(self).spec_settings().download_dir@
                    &&& s.progress() == (Progress { total, got: 0, done: false })
                    &&& s.files().len() == 0
                    &&& wanted_place(entries@, opt_view(root)) is Ok
                    &&& s.spec_place().to_file() == is_single(entries@, opt_view(root))
                    &&& first_free(
                        is_taken,
                        wanted_place(entries@, opt_view(root))->Ok_0,
                        s.spec_place().parts(),
                    )
                    &&& valid_parts(s.spec_place().parts())
                },
                Err(e) => wanted_place(entries@, opt_view(root)) == Err::<
                    Seq<Seq<char>>,
                    Seq<char>,
                >(e@),
            },
    {
        let sid = self.next_sid();
        match Place::choose_for(entries, root, is_taken) {
            Ok(place) => {
                let dir = self.settings.download_dir.clone();
                Ok(Session::new(sid, token, dir, place, total))
            },
            Err(e) => Err(e),
        }
    }

    /// Prepares a session as [`AppState::prepare_session`] does, with a new token.
    pub fn recv_session<F, T: Fn(&RelPath) -> bool>(
        &mut self,
        entries: &Vec<Entry>,
        total: u64,
        root: Option<&str>,
        is_taken: T,
    ) -> (r: Result<Session<F>, String>)
        requires
            old(self).wf(),
            old(self).registry().last < u64::MAX,
            forall|q: &RelPath| call_requires(is_taken, (q,)),
        ensures
            final(self).wf(),
            final(self).registry() == (Registry {
                last: (old(self).registry().last + 1) as u64,
                ..old(self).registry()
            }),
            final(self).same_but_registry(*old(self)),
            match r {
                Ok(s) => {
                    &&& s.wf()
                    &&& s.spec_sid() == old(self).registry().last + 1
                    &&& !final(self).registry().sessions.contains_key(s.spec_sid())
                    &&& s.spec_token().len() == TOKEN_LEN
                    &&& forall|i: int|
                        0 <= i < TOKEN_LEN ==> is_token_char(#[trigger] s.spec_token()[i])
                    &&& s.spec_dir() == old(self).spec_settings().download_dir@
                    &&& s.progress() == (Progress { total, got: 0, done: false })
                    &&& s.files().len() == 0
                    &&& wanted_place(entries@, opt_view(root)) is Ok
                    &&& s.spec_place().to_file() == is_single(entries@, opt_view(root))
                    &&& first_free(
                        is_taken,
                        wanted_place(entries@, opt_view(root))->Ok_0,
                        s.spec_place().parts(),
                    )
                    &&& valid_parts(s.spec_place().parts())
                },
                Err(e) => wanted_place(entries@, opt_view(root)) == Err::<
                    Seq<Seq<char>>,
                    Seq<char>,
                >(e@),
            },
    {
        let token = fresh_token();
        self.prepare_session(entries, total, root, token, is_taken)
    }

    /// Opens a session under a number that was given out for it.
    pub fn register(&mut self, sid: u64, token: &str, session: S)
        requires
            old(self).wf(),
            1 <= sid <= old(self).registry().last,
            !old(self).registry().sessions.contains_key(sid),
        ensures
            final(self).wf(),
            final(self).registry() == old(self).registry().with(sid, token@, session),
            final(self).same_but_registry(*old(self)),
    {
        proof {
            law_registered_is_found(self.registry(), sid, token@, session);
        }
        let ghost before = self.registry();
        self.sessions.insert(sid, Held { token: token.to_owned(), session });
        self.tokens.insert(token.to_owned(), sid);
        proof {
            assert(self.registry().sessions =~= before.sessions.insert(sid, (token@, session)));
        }
    }

    /// The session with a number.
    pub fn session(&self, sid: u64) -> (r: Option<&S>)
        ensures
            match r {
                Some(s) => self.registry().by_sid(sid) == Some(*s),
                None => self.registry().by_sid(sid) is None,
            },
    {
        match self.sessions.get(&sid) {
            Some(h) => Some(&h.session),
            None => None,
        }
    }

    /// The session that a token opens. A token that no session has opens
    /// nothing.
    pub fn session_for_token(&self, token: &str) -> (r: Option<&S>)
        ensures
            match r {
                Some(s) => self.registry().by_token(token@) == Some(*s),
                None => self.registry().by_token(token@) is None,
            },
    {
        match self.tokens.get(token) {
            Some(sid) => self.session(*sid),
            None => None,
        }
    }

    /// Closes a session: its number and its token lead nowhere from now on. The
    /// result is what stood for it, if there was one.
    pub fn recv_close(&mut self, sid: u64) -> (r: Option<S>)
        requires
            old(self).wf(),
        ensures
            final(self).wf(),
            r == old(self).registry().by_sid(sid),
            final(self).registry() == old(self).registry().without(sid),
            final(self).same_but_registry(*old(self)),
    {
        proof {
            law_closed_is_gone(self.registry(), sid, Seq::empty());
        }
        let ghost before = self.registry();
        match self.sessions.remove(&sid) {
            Some(h) => {
                self.tokens.remove(h.token.as_str());
                proof {
                    assert(before.sessions.contains_key(sid));
                    assert(self.registry().sessions =~= before.sessions.remove(sid));
                }
                Some(h.session)
            },
            None => {
                proof {
                    assert(self.registry().sessions =~= before.sessions);
                }
                None
            },
        }
    }

    /// Takes note of a transfer that can be cancelled by its key.
    pub fn begin_send(&mut self, key: &str, switch: C)
        requires
            old(self).wf(),
        ensures
            final(self).wf(),
            final(self).switches() == old(self).switches().insert(key@, switch),
            final(self).registry() == old(self).registry(),
            final(self).spec_settings() == old(self).spec_settings(),
            final(self).spec_port() == old(self).spec_port(),
    {
        self.cancel_tx.insert(key.to_owned(), switch);
    }

    /// The switch that cancels the transfer with a key.
    pub fn switch_for(&self, key: &str) -> (r: Option<&C>)
        ensures
            match r {
                Some(c) => self.switches().contains_key(key@) && self.switches()[key@] == *c,
                None => !self.switches().contains_key(key@),
            },
    {
        self.cancel_tx.get(key)
    }

    /// Forgets the transfer with a key.
    pub fn end_send(&mut self, key: &str)
        requires
            old(self).wf(),
        ensures
            final(self).wf(),
            final(self).switches() == old(self).switches().remove(key@),
            final(self).registry() == old(self).registry(),
            final(self).spec_settings() == old(self).spec_settings(),
            final(self).spec_port() == old(self).spec_port(),
    {
        self.cancel_tx.remove(key);
    }
}

} // verus!
