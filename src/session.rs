//! One connection's session: authentication decisions, the record of every
//! inbound data event, and the fake shell that answers them.
use vstd::prelude::*;

use crate::shell::{default_vars, feed_of, FakeShell};
use crate::text::bytes_eq;

verus! {

/// Verdict on one authentication attempt.
#[derive(PartialEq, Eq, Structural, Clone, Copy, Debug)]
pub enum AuthVerdict {
    Accept,
    Reject,
}

/// One inbound data delivery: channel, time since the session started
/// (seconds and nanoseconds) and the raw bytes.
pub struct RecordedEvent {
    pub channel: u32,
    pub secs: u64,
    pub nanos: u32,
    pub data: Vec<u8>,
}

/// A recorded event as plain values: (channel, seconds, nanoseconds, bytes).
pub type EventView = (u32, u64, u32, Seq<u8>);

impl RecordedEvent {
    pub open spec fn view(&self) -> EventView {
        (self.channel, self.secs, self.nanos, self.data@)
    }
}

/// What the transport reports to a session.
pub enum SessionEvent {
    AuthNone { user: String },
    AuthPassword { user: String, password: String },
    AuthPublicKey { user: String, key: Vec<u8> },
    AuthKeyboardInteractive { user: String },
    ShellRequest { channel: u32 },
    Data { channel: u32, secs: u64, nanos: u32, data: Vec<u8> },
}

/// What the session asks the transport to do in reply.
pub enum Action {
    /// Answer the authentication attempt.
    Verdict(AuthVerdict),
    /// Write bytes onto a channel.
    Write { channel: u32, data: Vec<u8> },
}

/// The log entry an event adds, if it is a data delivery.
pub open spec fn logged(ev: SessionEvent) -> Option<EventView> {
    match ev {
        SessionEvent::Data { channel, secs, nanos, data } => Some((channel, secs, nanos, data@)),
        _ => None,
    }
}

/// The event log after one more event.
pub open spec fn next_log(log: Seq<EventView>, ev: SessionEvent) -> Seq<EventView> {
    match logged(ev) {
        Some(e) => log.push(e),
        None => log,
    }
}

/// The event log after a run of events, starting from `log`.
pub open spec fn log_after(log: Seq<EventView>, evs: Seq<SessionEvent>) -> Seq<EventView>
    decreases evs.len(),
{
    if evs.len() == 0 {
        log
    } else {
        next_log(log_after(log, evs.drop_last()), evs.last())
    }
}

/// The bytes that `ev` delivers on `channel`: its data if it is a data
/// delivery on that channel, else nothing.
pub open spec fn delivered_bytes(ev: SessionEvent, channel: u32) -> Seq<u8> {
    match ev {
        SessionEvent::Data { channel: c, data, .. } => if c == channel {
            data@
        } else {
            Seq::empty()
        },
        _ => Seq::empty(),
    }
}

/// The bytes that a run of events delivers on `channel`, concatenated in
/// delivery order.
pub open spec fn delivered_on(evs: Seq<SessionEvent>, channel: u32) -> Seq<u8>
    decreases evs.len(),
{
    if evs.len() == 0 {
        Seq::empty()
    } else {
        delivered_on(evs.drop_last(), channel) + delivered_bytes(evs.last(), channel)
    }
}

/// The bytes of the entries of `log` on `channel`, concatenated in order.
pub open spec fn bytes_on(log: Seq<EventView>, channel: u32) -> Seq<u8>
    decreases log.len(),
{
    if log.len() == 0 {
        Seq::empty()
    } else if log.last().0 == channel {
        bytes_on(log.drop_last(), channel) + log.last().3
    } else {
        bytes_on(log.drop_last(), channel)
    }
}

/// Whether `key` is byte for byte one of the keys of `whitelist`.
pub open spec fn whitelisted(whitelist: Seq<Seq<u8>>, key: Seq<u8>) -> bool {
    exists|i: int| 0 <= i < whitelist.len() && whitelist[i] == key
}

/// What a session persists once it ends.
pub struct SessionRecord {
    pub id: u32,
    pub peer: String,
    pub user: Option<String>,
    pub password: Option<String>,
    pub accepted_key: Option<Vec<u8>>,
    pub events: Vec<RecordedEvent>,
}

impl SessionRecord {
    pub open spec fn events_view(&self) -> Seq<EventView> {
        self.events@.map_values(|e: RecordedEvent| e.view())
    }

    /// The channels that events arrived on, each once, in order of first use.
    pub fn channel_ids(&self) -> (r: Vec<u32>)
        ensures
            r@ == channels_of(self.events_view()),
    {
        let ghost evs = self.events_view();
        let mut out: Vec<u32> = Vec::new();
        let mut k: usize = 0;
        assert(evs.take(0) =~= Seq::<EventView>::empty());
        while k < self.events.len()
            invariant
                k <= evs.len(),
                evs == self.events_view(),
                out@ == channels_of(evs.take(k as int)),
            decreases evs.len() - k,
        {
            let c = self.events[k].channel;
            assert(evs.take(k + 1).drop_last() =~= evs.take(k as int));
            assert(evs.take(k + 1).last().0 == c);
            let mut seen = false;
            let mut j: usize = 0;
            while j < out.len()
                invariant
                    j <= out@.len(),
                    seen == exists|m: int| 0 <= m < j && out@[m] == c,
                decreases out@.len() - j,
            {
                if out[j] == c {
                    seen = true;
                }
                j = j + 1;
            }
            if !seen {
                out.push(c);
            }
            k = k + 1;
        }
        assert(evs.take(evs.len() as int) =~= evs);
        out
    }

    /// Positions in `events` of the events on `channel`, in order.
    pub fn events_on(&self, channel: u32) -> (r: Vec<usize>)
        ensures
            r@.map_values(|i: usize| i as int) == positions_on(self.events_view(), channel),
    {
        let ghost evs = self.events_view();
        let mut out: Vec<usize> = Vec::new();
        let mut k: usize = 0;
        assert(evs.take(0) =~= Seq::<EventView>::empty());
        assert(out@.map_values(|i: usize| i as int) =~= Seq::<int>::empty());
        while k < self.events.len()
            invariant
                k <= evs.len(),
                evs == self.events_view(),
                out@.map_values(|i: usize| i as int) == positions_on(evs.take(k as int), channel),
            decreases evs.len() - k,
        {
            assert(evs.take(k + 1).drop_last() =~= evs.take(k as int));
            assert(evs.take(k + 1).last().0 == self.events@[k as int].channel);
            if self.events[k].channel == channel {
                let ghost prev = out@;
                out.push(k);
                assert(out@.map_values(|i: usize| i as int) =~= prev.map_values(|i: usize| i as int).push(
                    k as int,
                ));
            }
            k = k + 1;
        }
        assert(evs.take(evs.len() as int) =~= evs);
        out
    }
}

/// The channels of the entries of `log`, each once, in order of first use.
pub open spec fn channels_of(log: Seq<EventView>) -> Seq<u32>
    decreases log.len(),
{
    if log.len() == 0 {
        Seq::empty()
    } else {
        let prev = channels_of(log.drop_last());
        if prev.contains(log.last().0) {
            prev
        } else {
            prev.push(log.last().0)
        }
    }
}

/// Positions of the entries of `log` on `channel`, in order.
pub open spec fn positions_on(log: Seq<EventView>, channel: u32) -> Seq<int>
    decreases log.len(),
{
    if log.len() == 0 {
        Seq::empty()
    } else if log.last().0 == channel {
        positions_on(log.drop_last(), channel).push(log.len() - 1)
    } else {
        positions_on(log.drop_last(), channel)
    }
}

/// Hands out connection ids 1, 2, 3, ... for one listener; once every `u32`
/// has been handed out it has none left.
pub struct ConnectionCounter {
    last: u32,
}

impl ConnectionCounter {
    /// The id handed out last; 0 before the first.
    pub closed spec fn last(&self) -> u32 {
        self.last
    }

    /// A counter that has handed out nothing.
    pub fn new() -> (r: ConnectionCounter)
        ensures
            r.last() == 0,
    {
        ConnectionCounter { last: 0 }
    }

    /// The next id, or `None` once the ids are used up.
    pub fn next_id(&mut self) -> (r: Option<u32>)
        ensures
            old(self).last() < u32::MAX ==> r == Some((old(self).last() + 1) as u32)
                && final(self).last() == old(self).last() + 1,
            old(self).last() == u32::MAX ==> r == None::<u32> && final(self).last() == old(
                self,
            ).last(),
    {
        if self.last < u32::MAX {
            self.last = self.last + 1;
            Some(self.last)
        } else {
            None
        }
    }
}

/// One connection's state.
pub struct Session {
    id: u32,
    peer: String,
    whitelist: Vec<Vec<u8>>,
    user: Option<String>,
    password: Option<String>,
    accepted_key: Option<Vec<u8>>,
    events: Vec<RecordedEvent>,
    shell: FakeShell,
}

impl Session {
    pub closed spec fn id(&self) -> u32 {
        self.id
    }

    pub closed spec fn peer(&self) -> Seq<char> {
        self.peer@
    }

    /// The public keys that public-key authentication accepts.
    pub closed spec fn whitelist(&self) -> Seq<Seq<u8>> {
        self.whitelist@.map_values(|k: Vec<u8>| k@)
    }

    /// The last user name offered, by any method.
    pub closed spec fn user(&self) -> Option<Seq<char>> {
        match self.user {
            Some(u) => Some(u@),
            None => None,
        }
    }

    /// The last password offered.
    pub closed spec fn password(&self) -> Option<Seq<char>> {
        match self.password {
            Some(p) => Some(p@),
            None => None,
        }
    }

    /// The last public key that was accepted.
    pub closed spec fn accepted_key(&self) -> Option<Seq<u8>> {
        match self.accepted_key {
            Some(k) => Some(k@),
            None => None,
        }
    }

    /// Every data delivery so far, in order.
    pub closed spec fn events(&self) -> Seq<EventView> {
        self.events@.map_values(|e: RecordedEvent| e.view())
    }

    /// The session's fake shell.
    pub closed spec fn shell(&self) -> FakeShell {
        self.shell
    }

    pub closed spec fn wf(&self) -> bool {
        self.shell.wf()
    }

    /// The offered user name and password and the accepted key are as in `o`.
    pub open spec fn same_credentials(&self, o: Session) -> bool {
        &&& self.user() == o.user()
        &&& self.password() == o.password()
        &&& self.accepted_key() == o.accepted_key()
    }

    /// All but the offered user name and password are as in `o`.
    pub open spec fn same_apart_from_credentials(&self, o: Session) -> bool {
        &&& self.wf() == o.wf()
        &&& self.id() == o.id()
        &&& self.peer() == o.peer()
        &&& self.whitelist() == o.whitelist()
        &&& self.accepted_key() == o.accepted_key()
        &&& self.events() == o.events()
        &&& self.shell() == o.shell()
    }

    /// A new session with nothing offered and nothing recorded.
    pub fn new(id: u32, peer: String, whitelist: Vec<Vec<u8>>) -> (r: Session)
        ensures
            r.wf(),
            r.id() == id,
            r.peer() == peer@,
            r.whitelist() == whitelist@.map_values(|k: Vec<u8>| k@),
            r.user() == None::<Seq<char>>,
            r.password() == None::<Seq<char>>,
            r.accepted_key() == None::<Seq<u8>>,
            r.events() == Seq::<EventView>::empty(),
            r.shell().pending() == Seq::<u8>::empty(),
            r.shell().vars() == default_vars(),
            r.shell().cwd() == Seq::<u8>::empty(),
            r.shell().user() == Seq::<u8>::empty(),
    {
        let r = Session {
            id,
            peer,
            whitelist,
            user: None,
            password: None,
            accepted_key: None,
            events: Vec::new(),
            shell: FakeShell::new(),
        };
        assert(r.events() =~= Seq::<EventView>::empty());
        r
    }

    /// The `none` method: always rejected; the user name is kept.
    pub fn auth_none(&mut self, user: String) -> (r: AuthVerdict)
        ensures
            r == AuthVerdict::Reject,
            final(self).user() == Some(user@),
            final(self).password() == old(self).password(),
            final(self).same_apart_from_credentials(*old(self)),
    {
        self.user = Some(user);
        AuthVerdict::Reject
    }

    /// The `password` method: always accepted; user name and password are
    /// kept, replacing any earlier ones.
    pub fn auth_password(&mut self, user: String, password: String) -> (r: AuthVerdict)
        ensures
            r == AuthVerdict::Accept,
            final(self).user() == Some(user@),
            final(self).password() == Some(password@),
            final(self).same_apart_from_credentials(*old(self)),
    {
        self.user = Some(user);
        self.password = Some(password);
        AuthVerdict::Accept
    }

    /// The `public-key` method: accepted exactly when `key` is byte for byte
    /// a whitelisted key, which is then kept; the user name is kept either way.
    pub fn auth_publickey(&mut self, user: String, key: &Vec<u8>) -> (r: AuthVerdict)
        ensures
            (r == AuthVerdict::Accept) == whitelisted(old(self).whitelist(), key@),
            final(self).user() == Some(user@),
            final(self).accepted_key() == if r == AuthVerdict::Accept {
                Some(key@)
            } else {
                old(self).accepted_key()
            },
            final(self).wf() == old(self).wf(),
            final(self).password() == old(self).password(),
            final(self).events() == old(self).events(),
            final(self).whitelist() == old(self).whitelist(),
            final(self).shell() == old(self).shell(),
            final(self).id() == old(self).id(),
            final(self).peer() == old(self).peer(),
    {
        self.user = Some(user);
        let ghost wl = self.whitelist();
        let mut found = false;
        let mut i: usize = 0;
        while i < self.whitelist.len()
            invariant
                i <= wl.len(),
                wl == self.whitelist(),
                found == exists|j: int| 0 <= j < i && wl[j] == key@,
            decreases wl.len() - i,
        {
            assert(wl[i as int] == self.whitelist@[i as int]@);
            if bytes_eq(&self.whitelist[i], key) {
                found = true;
            }
            i = i + 1;
        }
        if found {
            let mut kept: Vec<u8> = Vec::new();
            crate::text::push_all(&mut kept, key);
            assert(kept@ =~= key@);
            self.accepted_key = Some(kept);
            AuthVerdict::Accept
        } else {
            AuthVerdict::Reject
        }
    }

    /// The `keyboard-interactive` method: always rejected; the user name is
    /// kept.
    pub fn auth_keyboard_interactive(&mut self, user: String) -> (r: AuthVerdict)
        ensures
            r == AuthVerdict::Reject,
            final(self).user() == Some(user@),
            final(self).password() == old(self).password(),
            final(self).same_apart_from_credentials(*old(self)),
    {
        self.user = Some(user);
        AuthVerdict::Reject
    }

    /// A data delivery: recorded as it came, then fed to the shell; returns
    /// the shell's echo.
    pub fn data(&mut self, channel: u32, secs: u64, nanos: u32, data: Vec<u8>) -> (r: Vec<u8>)
        requires
            old(self).wf(),
        ensures
            final(self).wf(),
            final(self).events() == old(self).events().push((channel, secs, nanos, data@)),
            forall|c: u32| #[trigger]
                bytes_on(final(self).events(), c) == if c == channel {
                    bytes_on(old(self).events(), c) + data@
                } else {
                    bytes_on(old(self).events(), c)
                },
            (final(self).shell().pending(), r@) == feed_of(
                old(self).shell().vars(),
                old(self).shell().pending(),
                data@,
            ),
            final(self).shell().vars() == old(self).shell().vars(),
            final(self).shell().cwd() == old(self).shell().cwd(),
            final(self).shell().user() == old(self).shell().user(),
            final(self).user() == old(self).user(),
            final(self).password() == old(self).password(),
            final(self).accepted_key() == old(self).accepted_key(),
            final(self).whitelist() == old(self).whitelist(),
            final(self).id() == old(self).id(),
            final(self).peer() == old(self).peer(),
    {
        let out = self.shell.feed(data.as_slice());
        let ghost before = self.events();
        self.events.push(RecordedEvent { channel, secs, nanos, data });
        assert(self.events() =~= before.push((channel, secs, nanos, self.events@.last().data@)));
        assert forall|c: u32| #[trigger]
            bytes_on(self.events(), c) == if c == channel {
                bytes_on(before, c) + self.events@.last().data@
            } else {
                bytes_on(before, c)
            } by {
            assert(self.events().drop_last() =~= before);
        }
        out
    }

    /// A shell request: a fresh shell, answered as if a blank line were typed.
    pub fn shell_request(&mut self) -> (r: Vec<u8>)
        ensures
            final(self).wf(),
            final(self).shell().pending() == Seq::<u8>::empty(),
            final(self).shell().vars() == default_vars(),
            final(self).shell().cwd() == Seq::<u8>::empty(),
            final(self).shell().user() == Seq::<u8>::empty(),
            r@ == feed_of(default_vars(), Seq::empty(), seq![0x0du8]).1,
            final(self).events() == old(self).events(),
            final(self).user() == old(self).user(),
            final(self).password() == old(self).password(),
            final(self).accepted_key() == old(self).accepted_key(),
            final(self).whitelist() == old(self).whitelist(),
            final(self).id() == old(self).id(),
            final(self).peer() == old(self).peer(),
    {
        self.shell = FakeShell::new();
        let enter: [u8; 1] = [0x0du8];
        let out = self.shell.feed(&enter);
        assert(enter@ =~= seq![0x0du8]);
        assert(feed_of(default_vars(), Seq::empty(), seq![0x0du8]).0 =~= Seq::<u8>::empty());
        out
    }

    /// Applies one event and returns the reply for the transport.
    pub fn handle(&mut self, ev: SessionEvent) -> (r: Action)
        requires
            old(self).wf(),
        ensures
            final(self).wf(),
            final(self).events() == next_log(old(self).events(), ev),
            forall|c: u32| #[trigger]
                bytes_on(final(self).events(), c) == bytes_on(old(self).events(), c)
                    + delivered_bytes(ev, c),
            final(self).whitelist() == old(self).whitelist(),
            final(self).id() == old(self).id(),
            final(self).peer() == old(self).peer(),
            match ev {
                SessionEvent::AuthNone { user } => r == Action::Verdict(AuthVerdict::Reject)
                    && final(self).user() == Some(user@) && final(self).password() == old(
                    self,
                ).password() && final(self).accepted_key() == old(self).accepted_key(),
                SessionEvent::AuthPassword { user, password } => r == Action::Verdict(
                    AuthVerdict::Accept,
                ) && final(self).user() == Some(user@) && final(self).password() == Some(
                    password@,
                ) && final(self).accepted_key() == old(self).accepted_key(),
                SessionEvent::AuthPublicKey { user, key } => r == Action::Verdict(
                    if whitelisted(old(self).whitelist(), key@) {
                        AuthVerdict::Accept
                    } else {
                        AuthVerdict::Reject
                    },
                ) && final(self).user() == Some(user@) && final(self).password() == old(
                    self,
                ).password() && final(self).accepted_key() == if whitelisted(
                    old(self).whitelist(),
                    key@,
                ) {
                    Some(key@)
                } else {
                    old(self).accepted_key()
                },
                SessionEvent::AuthKeyboardInteractive { user } => r == Action::Verdict(
                    AuthVerdict::Reject,
                ) && final(self).user() == Some(user@) && final(self).password() == old(
                    self,
                ).password() && final(self).accepted_key() == old(self).accepted_key(),
                SessionEvent::ShellRequest { channel } => (match r {
                    Action::Write { channel: c, data } => c == channel && data@ == feed_of(
                        default_vars(),
                        Seq::empty(),
                        seq![0x0du8],
                    ).1,
                    _ => false,
                }) && final(self).shell().pending() == Seq::<u8>::empty()
                    && final(self).shell().vars() == default_vars()
                    && final(self).shell().cwd() == Seq::<u8>::empty()
                    && final(self).shell().user() == Seq::<u8>::empty()
                    && final(self).same_credentials(*old(self)),
                SessionEvent::Data { channel, secs, nanos, data } => (match r {
                    Action::Write { channel: c, data: out } => c == channel && (
                        final(self).shell().pending(),
                        out@,
                    ) == feed_of(old(self).shell().vars(), old(self).shell().pending(), data@),
                    _ => false,
                }) && final(self).shell().vars() == old(self).shell().vars()
                    && final(self).shell().cwd() == old(self).shell().cwd()
                    && final(self).shell().user() == old(self).shell().user()
                    && final(self).same_credentials(*old(self)),
            },
    {
        let ghost before = self.events();
        let ghost event = ev;
        let r = match ev {
            SessionEvent::AuthNone { user } => Action::Verdict(self.auth_none(user)),
            SessionEvent::AuthPassword { user, password } => Action::Verdict(
                self.auth_password(user, password),
            ),
            SessionEvent::AuthPublicKey { user, key } => {
                let v = self.auth_publickey(user, &key);
                Action::Verdict(v)
            },
            SessionEvent::AuthKeyboardInteractive { user } => Action::Verdict(
                self.auth_keyboard_interactive(user),
            ),
            SessionEvent::ShellRequest { channel } => {
                let data = self.shell_request();
                Action::Write { channel, data }
            },
            SessionEvent::Data { channel, secs, nanos, data } => {
                let out = self.data(channel, secs, nanos, data);
                Action::Write { channel, data: out }
            },
        };
        proof {
            assert forall|c: u32| #[trigger]
                bytes_on(self.events(), c) == bytes_on(before, c) + delivered_bytes(event, c) by {
                lemma_bytes_on_next(before, event, c);
            }
        }
        r
    }

    /// Ends the session and hands over what it recorded. Taking the session
    /// by value makes this the one and only record of the connection.
    pub fn finish(self) -> (r: SessionRecord)
        ensures
            r.id == self.id(),
            r.peer@ == self.peer(),
            (match r.user {
                Some(u) => Some(u@),
                None => None,
            }) == self.user(),
            (match r.password {
                Some(p) => Some(p@),
                None => None,
            }) == self.password(),
            (match r.accepted_key {
                Some(k) => Some(k@),
                None => None,
            }) == self.accepted_key(),
            r.events_view() == self.events(),
    {
        SessionRecord {
            id: self.id,
            peer: self.peer,
            user: self.user,
            password: self.password,
            accepted_key: self.accepted_key,
            events: self.events,
        }
    }
}

/// On each channel, the bytes logged over a run of events are the bytes
/// delivered on that channel by those events, in delivery order, after what
/// was logged before; events other than data deliveries add nothing.
pub proof fn lemma_logged_bytes_are_delivered(log: Seq<EventView>, evs: Seq<SessionEvent>, channel: u32)
    ensures
        bytes_on(log_after(log, evs), channel) == bytes_on(log, channel) + delivered_on(evs, channel),
    decreases evs.len(),
{
    if evs.len() == 0 {
        assert(bytes_on(log, channel) + Seq::<u8>::empty() =~= bytes_on(log, channel));
    } else {
        let prev = log_after(log, evs.drop_last());
        lemma_logged_bytes_are_delivered(log, evs.drop_last(), channel);
        lemma_bytes_on_next(prev, evs.last(), channel);
        assert(bytes_on(log, channel) + delivered_on(evs, channel) =~= bytes_on(log, channel)
            + delivered_on(evs.drop_last(), channel) + delivered_bytes(evs.last(), channel));
    }
}

/// One event adds to a channel's logged bytes exactly what it delivers there.
pub proof fn lemma_bytes_on_next(log: Seq<EventView>, ev: SessionEvent, channel: u32)
    ensures
        bytes_on(next_log(log, ev), channel) == bytes_on(log, channel) + delivered_bytes(ev, channel),
{
    match logged(ev) {
        Some(e) => {
            assert(log.push(e).drop_last() =~= log);
            if e.0 != channel {
                assert(bytes_on(log, channel) + Seq::<u8>::empty() =~= bytes_on(log, channel));
            }
        },
        None => {
            assert(bytes_on(log, channel) + Seq::<u8>::empty() =~= bytes_on(log, channel));
        },
    }
}

} // verus!
